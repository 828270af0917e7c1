use s3_sync::content_type::get_content_type;
use s3_sync::location::{full_remote_key, normalize_prefix, split_location};

#[test]
fn location_splits_at_first_slash() {
    assert_eq!(
        split_location("my-bucket/my/prefix"),
        ("my-bucket".to_string(), "my/prefix".to_string())
    );
    assert_eq!(
        split_location("my-bucket/"),
        ("my-bucket".to_string(), "".to_string())
    );
}

#[test]
fn location_without_slash_is_all_bucket() {
    assert_eq!(
        split_location("my-bucket"),
        ("my-bucket".to_string(), "".to_string())
    );
    assert_eq!(split_location(""), ("".to_string(), "".to_string()));
}

#[test]
fn prefix_gains_exactly_one_trailing_slash() {
    assert_eq!(normalize_prefix("dir"), "dir/");
    assert_eq!(normalize_prefix("dir/"), "dir/");
    assert_eq!(normalize_prefix(""), "");
    assert_eq!(normalize_prefix("a/b"), "a/b/");
}

#[test]
fn full_key_is_prefix_then_relative_key() {
    assert_eq!(full_remote_key("pre/", "k.txt"), "pre/k.txt");
    assert_eq!(full_remote_key("", "k.txt"), "k.txt");
}

#[test]
fn known_extensions_get_their_media_type() {
    assert_eq!(get_content_type("a.txt"), "text/plain");
    assert_eq!(get_content_type("page.html"), "text/html");
    assert_eq!(get_content_type("photo.jpg"), "image/jpeg");
}

#[test]
fn unknown_extensions_fall_back_to_binary() {
    assert_eq!(get_content_type("data.qqqq"), "binary/octet-stream");
    assert_eq!(get_content_type("no_extension"), "binary/octet-stream");
}
