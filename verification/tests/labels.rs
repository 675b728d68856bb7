//! What a query asks for, in words.
use agfs::diff::range_label;



#[test]
fn diff_range_label_at() {
    assert_eq!(range_label(Some("s1"), None, None), " at checkpoint \"s1\"");
}

#[test]
fn diff_range_label_from_to() {
    assert_eq!(
        range_label(None, Some("s1"), Some("s2")),
        " between \"s1\" and \"s2\""
    );
}

#[test]
fn diff_range_label_from_only() {
    assert_eq!(
        range_label(None, Some("s1"), None),
        " since checkpoint \"s1\""
    );
}

#[test]
fn diff_range_label_to_only() {
    assert_eq!(
        range_label(None, None, Some("s2")),
        " up to checkpoint \"s2\""
    );
}

#[test]
fn diff_range_label_none() {
    assert_eq!(range_label(None, None, None), " staged");
}
