//! Collapsing actions into one change per path.
use agfs::dtype::DType;
use agfs::replay::types::{Action, ActionList, Change};

// ── collapse ─────────────────────────────────────────────────────

#[test]
fn collapse_add() {
    let al = ActionList(vec![Action::Add {
        path: "/a".into(),
        ino: 1,
        dtype: DType::File,
    }]);
    let cs = al.collapse();
    assert_eq!(cs.0.len(), 1);
    assert!(matches!(&cs.0[0], (p, Change::Added { ino: 1, .. }) if p == "/a"));
}

#[test]
fn collapse_modify() {
    let al = ActionList(vec![Action::Modify {
        path: "/a".into(),
        ino: 2,
        dtype: DType::File,
    }]);
    let cs = al.collapse();
    assert_eq!(cs.0.len(), 1);
    assert!(matches!(&cs.0[0], (p, Change::Modified { ino: 2, .. }) if p == "/a"));
}

#[test]
fn collapse_delete() {
    let al = ActionList(vec![Action::Delete { path: "/a".into() }]);
    let cs = al.collapse();
    assert_eq!(cs.0.len(), 1);
    assert!(matches!(&cs.0[0], (p, Change::Deleted) if p == "/a"));
}

#[test]
fn collapse_rename() {
    let al = ActionList(vec![Action::Rename {
        old: "/a".into(),
        new: "/b".into(),
        dtype: DType::File,
    }]);
    let cs = al.collapse();
    assert_eq!(cs.0.len(), 2);
    let has_renamed = cs.0
        .iter()
        .any(|(p, c)| matches!(c, Change::Renamed { from, .. } if from == "/a" && p == "/b"));
    let has_deleted = cs.0
        .iter()
        .any(|(p, c)| matches!(c, Change::Deleted if p == "/a"));
    assert!(has_renamed, "expected Renamed(/a→/b), got: {cs:?}");
    assert!(has_deleted, "expected Deleted(/a), got: {cs:?}");
}

#[test]
fn collapse_replace() {
    let al = ActionList(vec![Action::Replace {
        old: "/a".into(),
        new: "/b".into(),
        dtype: DType::File,
    }]);
    let cs = al.collapse();
    assert_eq!(cs.0.len(), 2);
    let has_replaced = cs.0
        .iter()
        .any(|(p, c)| matches!(c, Change::Replaced { from, .. } if from == "/a" && p == "/b"));
    assert!(has_replaced, "expected Replaced(/a→/b), got: {cs:?}");
}

#[test]
fn collapse_add_then_delete_cancels() {
    let al = ActionList(vec![
        Action::Add {
            path: "/a".into(),
            ino: 1,
            dtype: DType::File,
        },
        Action::Delete { path: "/a".into() },
    ]);
    let cs = al.collapse();
    assert!(cs.0.is_empty(), "A+D should cancel, got: {cs:?}");
}

#[test]
fn collapse_rename_then_delete() {
    let al = ActionList(vec![
        Action::Rename {
            old: "/a".into(),
            new: "/b".into(),
            dtype: DType::File,
        },
        Action::Delete { path: "/b".into() },
    ]);
    let cs = al.collapse();
    // Rename(a→b) then DEL(b) → Deleted(a) + Deleted(b)
    assert_eq!(cs.0.len(), 2, "expected 2 deletes, got: {cs:?}");
    let has_del_a = cs.0
        .iter()
        .any(|(p, c)| matches!(c, Change::Deleted if p == "/a"));
    let has_del_b = cs.0
        .iter()
        .any(|(p, c)| matches!(c, Change::Deleted if p == "/b"));
    assert!(has_del_a, "expected Deleted(/a), got: {cs:?}");
    assert!(has_del_b, "expected Deleted(/b), got: {cs:?}");
}

#[test]
fn collapse_rename_dir_dtype() {
    let al = ActionList(vec![Action::Rename {
        old: "/olddir".into(),
        new: "/newdir".into(),
        dtype: DType::Dir,
    }]);
    let cs = al.collapse();
    let has_renamed = cs.0.iter().any(|(to, c)| {
        matches!(c, Change::Renamed { from, dtype: DType::Dir, .. } if from == "/olddir" && to == "/newdir")
    });
    assert!(
        has_renamed,
        "expected Renamed with DType::Dir, got: {cs:?}"
    );
}

#[test]
fn collapse_rename_then_add_at_old_path() {
    // Rename(a→b) + Add(a, ino=2): old path gets Deleted then overwritten by Add
    let al = ActionList(vec![
        Action::Rename {
            old: "/a".into(),
            new: "/b".into(),
            dtype: DType::File,
        },
        Action::Add {
            path: "/a".into(),
            ino: 2,
            dtype: DType::File,
        },
    ]);
    let cs = al.collapse();
    assert_eq!(cs.0.len(), 2, "expected 2 changes, got: {cs:?}");
    let has_renamed = cs.0.iter().any(|(to, c)| {
        matches!(c, Change::Renamed { from, .. } if from == "/a" && to == "/b")
    });
    let has_added = cs.0
        .iter()
        .any(|(p, c)| matches!(c, Change::Added { ino: 2, .. } if p == "/a"));
    assert!(has_renamed, "expected Renamed(a→b), got: {cs:?}");
    assert!(has_added, "expected Added(a, ino=2), got: {cs:?}");
}

#[test]
fn collapse_three_cycle_renames() {
    // Three uncollapsed renames forming a cycle: a→tmp, b→a, tmp→b
    let al = ActionList(vec![
        Action::Rename {
            old: "/a".into(),
            new: "/tmp".into(),
            dtype: DType::File,
        },
        Action::Rename {
            old: "/b".into(),
            new: "/a".into(),
            dtype: DType::File,
        },
        Action::Rename {
            old: "/tmp".into(),
            new: "/b".into(),
            dtype: DType::File,
        },
    ]);
    let cs = al.collapse();
    assert!(!cs.0.is_empty(), "swap should produce changes, got: {cs:?}");
}

#[test]
fn collapse_delete_then_modify_same_path() {
    // DEL(x) + MOD(x): collapse keeps latest (Modified)
    let al = ActionList(vec![
        Action::Delete { path: "/x".into() },
        Action::Modify {
            path: "/x".into(),
            ino: 2,
            dtype: DType::File,
        },
    ]);
    let cs = al.collapse();
    assert_eq!(cs.0.len(), 1, "expected 1 change, got: {cs:?}");
    let has_modified = cs.0
        .iter()
        .any(|(p, c)| matches!(c, Change::Modified { ino: 2, .. } if p == "/x"));
    assert!(has_modified, "expected Modified, got: {cs:?}");
}

#[test]
fn collapse_replace_overwrite_tracking() {
    // REP(a→b) then REP(c→b): b's prior origin (a) should be deleted
    let al = ActionList(vec![
        Action::Replace {
            old: "/a".into(),
            new: "/b".into(),
            dtype: DType::File,
        },
        Action::Replace {
            old: "/c".into(),
            new: "/b".into(),
            dtype: DType::File,
        },
    ]);
    let cs = al.collapse();
    let has_del_a = cs.0
        .iter()
        .any(|(p, c)| matches!(c, Change::Deleted if p == "/a"));
    let has_del_c = cs.0
        .iter()
        .any(|(p, c)| matches!(c, Change::Deleted if p == "/c"));
    let has_replaced = cs.0
        .iter()
        .any(|(p, c)| matches!(c, Change::Replaced { from, .. } if from == "/c" && p == "/b"));
    assert!(
        has_del_a,
        "expected Deleted(/a) from overwrite, got: {cs:?}"
    );
    assert!(has_del_c, "expected Deleted(/c) as source, got: {cs:?}");
    assert!(has_replaced, "expected Replaced(c→b), got: {cs:?}");
}

#[test]
fn collapse_self_rename_is_noop() {
    let al = ActionList(vec![Action::Rename {
        old: "/a".into(),
        new: "/a".into(),
        dtype: DType::File,
    }]);
    let cs = al.collapse();
    assert!(cs.0.is_empty(), "RDR(a,a) should be a no-op, got: {cs:?}");
}

#[test]
fn collapse_self_replace_is_noop() {
    let al = ActionList(vec![Action::Replace {
        old: "/a".into(),
        new: "/a".into(),
        dtype: DType::File,
    }]);
    let cs = al.collapse();
    assert!(cs.0.is_empty(), "REP(a,a) should be a no-op, got: {cs:?}");
}

#[test]
fn collapse_roundtrip_cancels() {
    // a→tmp→a should cancel both entries.
    let al = ActionList(vec![
        Action::Rename {
            old: "/a".into(),
            new: "/tmp".into(),
            dtype: DType::File,
        },
        Action::Rename {
            old: "/tmp".into(),
            new: "/a".into(),
            dtype: DType::File,
        },
    ]);
    let cs = al.collapse();
    assert!(cs.0.is_empty(), "a→tmp→a should cancel, got: {cs:?}");
}

#[test]
fn collapse_modify_then_rename_preserves_dtype() {
    let al = ActionList(vec![
        Action::Modify {
            path: "/a".into(),
            ino: 1,
            dtype: DType::Dir,
        },
        Action::Rename {
            old: "/a".into(),
            new: "/b".into(),
            dtype: DType::File,
        },
    ]);
    let cs = al.collapse();
    let renamed = cs.0
        .iter()
        .find(|(p, _)| p == "/b")
        .expect("expected entry at /b");
    assert!(
        matches!(&renamed.1, Change::Renamed { dtype: DType::Dir, .. }),
        "dtype should come from Modify (Dir), got: {:?}",
        renamed.1
    );
}
