use cog_engine::path::is_remote_path;

#[test]
fn scheme_separator_marks_remote_locations() {
    assert!(is_remote_path("s3://bucket/key.tif"));
    assert!(is_remote_path("https://example.com/a.tif"));
    assert!(is_remote_path("file:///tmp/a.tif"));
    assert!(!is_remote_path("/tmp/a.tif"));
    assert!(!is_remote_path("relative/dir/a.tif"));
    assert!(!is_remote_path("c:/data/a.tif"));
    assert!(!is_remote_path(""));
    assert!(!is_remote_path(":/"));
    assert!(is_remote_path("://"));
    assert!(is_remote_path("데이터://x"));
}
