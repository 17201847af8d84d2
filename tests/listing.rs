use s3_bucket_downloader::lister::{KeyLister, ListRequest};

fn some(keys: &[&str]) -> Vec<Option<String>> {
    keys.iter().map(|k| Some(k.to_string())).collect()
}

fn token_of(r: &ListRequest) -> Option<Option<String>> {
    match r {
        ListRequest::Page { continuation_token } => Some(continuation_token.clone()),
        ListRequest::Done => None,
    }
}

#[test]
fn pages_accumulate_until_not_truncated() {
    let mut l = KeyLister::new();
    assert_eq!(token_of(&l.next_request()), Some(None));
    l.on_page(some(&["a", "b"]), Some(true), Some("t1".to_string()));
    assert_eq!(token_of(&l.next_request()), Some(Some("t1".to_string())));
    l.on_page(some(&["c/d.txt"]), Some(true), Some("t2".to_string()));
    assert_eq!(token_of(&l.next_request()), Some(Some("t2".to_string())));
    l.on_page(some(&["e"]), Some(false), None);
    assert_eq!(token_of(&l.next_request()), None);
    let listing = l.finish();
    assert!(listing.complete);
    assert_eq!(listing.keys, vec!["a", "b", "c/d.txt", "e"]);
}

#[test]
fn entries_without_key_are_skipped() {
    let mut l = KeyLister::new();
    l.on_page(vec![Some("a".to_string()), None, Some("b".to_string())], None, None);
    let listing = l.finish();
    assert!(listing.complete);
    assert_eq!(listing.keys, vec!["a", "b"]);
}

#[test]
fn failed_page_keeps_what_was_gathered() {
    let mut l = KeyLister::new();
    l.on_page(some(&["a", "b"]), Some(true), Some("t1".to_string()));
    l.on_error();
    assert_eq!(token_of(&l.next_request()), None);
    let listing = l.finish();
    assert!(!listing.complete);
    assert_eq!(listing.keys, vec!["a", "b"]);
}

#[test]
fn failed_first_page_gives_empty_incomplete_listing() {
    let mut l = KeyLister::new();
    l.on_error();
    let listing = l.finish();
    assert!(!listing.complete);
    assert!(listing.keys.is_empty());
}

#[test]
fn truncated_page_without_token_ends_incomplete() {
    let mut l = KeyLister::new();
    l.on_page(some(&["a"]), Some(true), None);
    assert_eq!(token_of(&l.next_request()), None);
    let listing = l.finish();
    assert!(!listing.complete);
    assert_eq!(listing.keys, vec!["a"]);
}

#[test]
fn page_after_end_is_ignored() {
    let mut l = KeyLister::new();
    l.on_page(some(&["a"]), Some(false), None);
    l.on_page(some(&["z"]), Some(true), Some("t".to_string()));
    let listing = l.finish();
    assert!(listing.complete);
    assert_eq!(listing.keys, vec!["a"]);
}
