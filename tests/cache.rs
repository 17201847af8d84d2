use s3_bucket_downloader::cache::{cache_file_name, choose_key_source, decode_keys, encode_keys, KeySource};

fn strings(v: &[&str]) -> Vec<String> {
    v.iter().map(|s| s.to_string()).collect()
}

#[test]
fn cache_name_is_derived_from_bucket() {
    assert_eq!(cache_file_name("photos"), "photos.files.txt");
    assert_eq!(cache_file_name(""), ".files.txt");
}

#[test]
fn encode_writes_one_key_per_line() {
    assert_eq!(encode_keys(&strings(&["a", "b/c.jpg"])), "a\nb/c.jpg\n");
    assert_eq!(encode_keys(&vec![]), "");
}

#[test]
fn round_trip_keeps_keys_with_slashes() {
    let keys = strings(&["images/2024/01/a.jpg", "b", "deep/er/path/", "x y", "ü/ß"]);
    assert_eq!(decode_keys(&encode_keys(&keys)), keys);
    let mut back = decode_keys(&encode_keys(&keys));
    back.sort();
    let mut orig = keys.clone();
    orig.sort();
    assert_eq!(back, orig);
}

#[test]
fn round_trip_of_empty_list() {
    assert!(decode_keys(&encode_keys(&vec![])).is_empty());
}

#[test]
fn decode_reads_lines() {
    assert_eq!(decode_keys("a\r\nb\nc"), strings(&["a", "b", "c"]));
    assert_eq!(decode_keys("a\n\nb\n"), strings(&["a", "", "b"]));
    assert_eq!(decode_keys("tail\r"), strings(&["tail\r"]));
    assert!(decode_keys("").is_empty());
    assert_eq!(decode_keys("\n"), strings(&[""]));
}

#[test]
fn supplied_list_takes_precedence() {
    match choose_key_source("bkt", Some("mine.txt".to_string()), true) {
        KeySource::ListFile { path } => assert_eq!(path, "mine.txt"),
        other => panic!("unexpected {:?}", other),
    }
}

#[test]
fn cache_is_trusted_when_present() {
    match choose_key_source("bkt", None, true) {
        KeySource::Cache { path } => assert_eq!(path, "bkt.files.txt"),
        other => panic!("unexpected {:?}", other),
    }
    match choose_key_source("bkt", None, false) {
        KeySource::Listing { cache_path } => assert_eq!(cache_path, "bkt.files.txt"),
        other => panic!("unexpected {:?}", other),
    }
}
