//! Lines of the audit trail.
use agfs::diff::strip_styles;
use agfs::overlay::audit::{format_action, format_marker};
use agfs::overlay::types::{Action, Marker};

#[test]
fn format_checkpoint() {
    let marker = Marker::Checkpoint {
        gen_id: 3,
        name: "build".into(),
    };
    let s = strip_styles(&format_marker(&marker));
    assert!(s.contains("[3]"), "should contain gen_id: {s}");
    assert!(s.contains("build"), "should contain name: {s}");
}

#[test]
fn format_restore() {
    let marker = Marker::Restore {
        gen_id: 5,
        target_gen: 2,
    };
    let s = strip_styles(&format_marker(&marker));
    assert!(s.contains("[5]"), "should contain gen_id: {s}");
    assert!(
        s.contains("restored to [2]"),
        "should reference target: {s}"
    );
}

#[test]
fn format_added() {
    let action = Action::Add {
        path: "/src/main.rs".into(),
        dtype: Some(libc::DT_REG),
        ino: 42,
    };
    let s = strip_styles(&format_action(&action));
    assert!(s.contains("added"), "should say added: {s}");
    assert!(s.contains("/src/main.rs"), "should contain path: {s}");
    assert!(s.contains("42"), "should contain ino: {s}");
}

#[test]
fn format_replace() {
    let action = Action::Replace {
        src: "/a".into(),
        dst: "/b".into(),
        dtype: Some(libc::DT_REG),
    };
    let s = strip_styles(&format_action(&action));
    assert!(s.contains("replaced"), "should say replaced: {s}");
    assert!(s.contains("/a"), "should contain old: {s}");
    assert!(s.contains("/b"), "should contain new: {s}");
}
