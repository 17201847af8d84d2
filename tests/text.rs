use s3_bucket_downloader::text::{extract_base_name_and_index, extract_timestamp, fmt_int, glob_matches, split_words};

#[test]
fn glob_prefix_star() {
    assert!(glob_matches("product_images-wish-2023-05-01", "product_images-wish-202*"));
    assert!(!glob_matches("product_images-wish-archive", "product_images-wish-202*"));
    assert!(!glob_matches("product", "product_images-*"));
}

#[test]
fn glob_prefix_and_suffix() {
    assert!(glob_matches("report-2024.csv", "report-*.csv"));
    assert!(!glob_matches("report-2024.txt", "report-*.csv"));
    assert!(!glob_matches("x.csv", "report-*.csv"));
}

#[test]
fn glob_without_star_is_a_prefix_test() {
    assert!(glob_matches("abcdef", "abc"));
    assert!(glob_matches("abc", "abc"));
    assert!(!glob_matches("ab", "abc"));
    assert!(glob_matches("anything", ""));
}

#[test]
fn glob_with_several_stars_checks_only_the_head() {
    assert!(glob_matches("a-x-y", "a*b*c"));
    assert!(!glob_matches("b-x-y", "a*b*c"));
    assert!(glob_matches("abz", "ab*"));
}

#[test]
fn timestamp_is_first_two_words() {
    assert_eq!(
        extract_timestamp("2024-01-02 03:04:05.678 INFO The format of a.mp4 is mp4"),
        Some("2024-01-02 03:04:05.678".to_string())
    );
    assert_eq!(extract_timestamp("  \t2024-01-02\u{3000}10:00:00  rest"), Some("2024-01-02 10:00:00".to_string()));
    assert_eq!(extract_timestamp("single"), None);
    assert_eq!(extract_timestamp("   "), None);
    assert_eq!(extract_timestamp(""), None);
}

#[test]
fn words_split_on_unicode_white_space() {
    assert_eq!(split_words(" a\u{a0}b\n\nc "), vec!["a", "b", "c"]);
    assert!(split_words("").is_empty());
}

#[test]
fn base_name_and_index() {
    assert_eq!(extract_base_name_and_index("photo_3.jpg", "_"), Some(("photo".to_string(), 3)));
    assert_eq!(extract_base_name_and_index("a_b_12.jpg", "_"), Some(("a_b".to_string(), 12)));
    assert_eq!(extract_base_name_and_index("clip-frame-007", "-frame-"), Some(("clip".to_string(), 7)));
    assert_eq!(extract_base_name_and_index("x_+5.png", "_"), Some(("x".to_string(), 5)));
    assert_eq!(extract_base_name_and_index("x_5.tar.gz", "_"), None);
    assert_eq!(extract_base_name_and_index("photo.jpg", "_"), None);
    assert_eq!(extract_base_name_and_index("photo_.jpg", "_"), None);
    assert_eq!(extract_base_name_and_index("photo_x.jpg", "_"), None);
    assert_eq!(extract_base_name_and_index("..", "_"), None);
    assert_eq!(extract_base_name_and_index("", "_"), None);
    assert_eq!(extract_base_name_and_index("a_99999999999999999999999.jpg", "_"), None);
    assert_eq!(extract_base_name_and_index(".a_1", "_"), Some((".a".to_string(), 1)));
}

#[test]
fn fmt_int_values() {
    assert_eq!(fmt_int(Some(0)), "0");
    assert_eq!(fmt_int(Some(1234)), "1234");
    assert_eq!(fmt_int(Some(-42)), "-42");
    assert_eq!(fmt_int(Some(i32::MIN)), "-2147483648");
    assert_eq!(fmt_int(Some(i32::MAX)), "2147483647");
    assert_eq!(fmt_int(None), "-");
}
