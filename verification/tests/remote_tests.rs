use s3_sync::remote::{add_listing_page, more_pages, relative_remote_key, RemoteEntry};
use s3_sync::sync::FileSet;

fn entry(key: &str, etag: &str) -> RemoteEntry {
    RemoteEntry {
        key: Some(key.to_string()),
        etag: Some(etag.to_string()),
        size: Some(42),
    }
}

#[test]
fn prefix_is_stripped_from_listed_keys() {
    let mut fs = FileSet::new();
    let page = vec![entry("reports/2024/a.csv", "h1")];
    add_listing_page(&mut fs, "reports/2024/", &page);
    assert_eq!(fs.len(), 1);
    assert_eq!(fs.get_etag("a.csv").unwrap().as_str(), "h1");
}

#[test]
fn relative_key_shapes() {
    assert_eq!(relative_remote_key("reports/2024/a.csv", "reports/2024/"), "a.csv");
    assert_eq!(relative_remote_key("a.csv", ""), "a.csv");
    assert_eq!(relative_remote_key("/a.csv", ""), "a.csv");
    // a key that does not start with the prefix is kept whole
    assert_eq!(relative_remote_key("other/a.csv", "reports/"), "other/a.csv");
    // a prefix without trailing slash leaves a leading slash to trim
    assert_eq!(relative_remote_key("reports/a.csv", "reports"), "a.csv");
    // at most one leading slash is trimmed
    assert_eq!(relative_remote_key("//x", ""), "/x");
}

#[test]
fn only_one_separator_is_stripped_after_the_prefix() {
    let mut fs = FileSet::new();
    add_listing_page(&mut fs, "p", &vec![entry("p//x", "h")]);
    assert_eq!(fs.len(), 1);
    assert_eq!(fs.get_etag("/x").unwrap().as_str(), "h");
    assert!(!fs.contains_path("x"));
}

#[test]
fn empty_page_changes_nothing() {
    let mut fs = FileSet::new();
    add_listing_page(&mut fs, "p/", &vec![entry("p/a", "1")]);
    add_listing_page(&mut fs, "p/", &Vec::new());
    assert_eq!(fs.len(), 1);
    assert_eq!(fs.get_etag("a").unwrap().as_str(), "1");
}

#[test]
fn three_pages_merge_without_loss_or_duplicates() {
    let mut fs = FileSet::new();
    let pages = vec![
        vec![entry("p/a", "1"), entry("p/b", "2")],
        vec![entry("p/c", "3"), entry("p/d", "4")],
        vec![entry("p/e", "5"), entry("p/f", "6")],
    ];
    let mut tokens = vec![Some(true), Some(true), Some(false)].into_iter();
    for page in &pages {
        add_listing_page(&mut fs, "p/", page);
        let truncated = tokens.next().unwrap();
        if !more_pages(truncated) {
            break;
        }
    }
    assert_eq!(fs.len(), 6);
    for (k, e) in [("a", "1"), ("b", "2"), ("c", "3"), ("d", "4"), ("e", "5"), ("f", "6")] {
        assert_eq!(fs.get_etag(k).unwrap().as_str(), e);
    }
}

#[test]
fn key_repeated_across_pages_is_not_duplicated() {
    let mut fs = FileSet::new();
    add_listing_page(&mut fs, "", &vec![entry("a", "1"), entry("b", "2")]);
    add_listing_page(&mut fs, "", &vec![entry("b", "9"), entry("c", "3")]);
    assert_eq!(fs.len(), 3);
    assert_eq!(fs.get_etag("b").unwrap().as_str(), "9");
}

#[test]
fn incomplete_entries_are_skipped() {
    let mut fs = FileSet::new();
    let page = vec![
        entry("keep", "h"),
        RemoteEntry { key: None, etag: Some("x".into()), size: Some(1) },
        RemoteEntry { key: Some("no_etag".into()), etag: None, size: Some(1) },
        RemoteEntry { key: Some("no_size".into()), etag: Some("y".into()), size: None },
    ];
    add_listing_page(&mut fs, "", &page);
    assert_eq!(fs.len(), 1);
    assert!(fs.contains_path("keep"));
    assert!(!fs.contains_path("no_etag"));
    assert!(!fs.contains_path("no_size"));
}

#[test]
fn truncation_flag_drives_pagination() {
    assert!(more_pages(Some(true)));
    assert!(!more_pages(Some(false)));
    assert!(!more_pages(None));
}
