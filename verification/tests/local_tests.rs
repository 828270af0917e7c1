use s3_sync::local::{
    fingerprint_of_content, normalize_separators, to_hex_lower, LocalWalker,
};

#[test]
fn fingerprint_of_empty_content() {
    assert_eq!(
        fingerprint_of_content(b""),
        "d41d8cd98f00b204e9800998ecf8427e"
    );
}

#[test]
fn fingerprint_of_known_content() {
    assert_eq!(
        fingerprint_of_content(b"hello"),
        "5d41402abc4b2a76b9719d911017c592"
    );
}

#[test]
fn hex_rendering_is_lowercase_two_digits_per_byte() {
    assert_eq!(to_hex_lower(&[]), "");
    assert_eq!(to_hex_lower(&[0x00, 0xff, 0x1a]), "00ff1a");
    assert_eq!(to_hex_lower(&[0xab, 0xcd, 0xef]), "abcdef");
}

#[test]
fn backslashes_become_slashes() {
    assert_eq!(normalize_separators("a\\b\\c.txt"), "a/b/c.txt");
    assert_eq!(normalize_separators("a/b/c.txt"), "a/b/c.txt");
    assert_eq!(normalize_separators(""), "");
}

#[test]
fn walker_hands_out_pending_directories_last_in_first_out() {
    let mut w = LocalWalker::new("root".to_string());
    assert_eq!(w.next_dir().unwrap(), "root");
    w.record_dir("root/x".to_string());
    w.record_dir("root/y".to_string());
    assert_eq!(w.next_dir().unwrap(), "root/y");
    assert_eq!(w.next_dir().unwrap(), "root/x");
    assert!(w.next_dir().is_none());
}

#[test]
fn walker_records_files_under_normalized_paths() {
    let mut w = LocalWalker::new("root".to_string());
    w.record_file("sub\\file.txt", b"hello");
    w.record_file("plain.txt", b"");
    let files = w.into_files();
    assert_eq!(files.len(), 2);
    assert_eq!(
        files.get_etag("sub/file.txt").unwrap().as_str(),
        "5d41402abc4b2a76b9719d911017c592"
    );
    assert_eq!(
        files.get_etag("plain.txt").unwrap().as_str(),
        "d41d8cd98f00b204e9800998ecf8427e"
    );
}
