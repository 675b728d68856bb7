//! Compacting records into actions.
use agfs::dtype::DType;
use agfs::replay::compact::compact;
use agfs::replay::segment::SegmentedJournal;
use agfs::replay::types::{Action, Change, RawJournal, Record};

// ── Cancel ───────────────────────────────────────────────────────

#[test]
fn compact_add_then_delete_cancels() {
    let records = vec![
        Record::Added {
            path: "/x".into(),
            dtype: Some(DType::File),
            ino: 1,
        },
        Record::Deleted { path: "/x".into() },
    ];
    let al = compact(records);
    assert!(al.0.is_empty(), "A+D should cancel, got: {:?}", al.0);
}

#[test]
fn compact_modify_then_delete_keeps_delete() {
    let records = vec![
        Record::Modified {
            path: "/x".into(),
            dtype: Some(DType::File),
            ino: 1,
        },
        Record::Deleted { path: "/x".into() },
    ];
    let al = compact(records);
    assert_eq!(al.0.len(), 1);
    assert!(matches!(&al.0[0], Action::Delete { path } if path == "/x"));
}

// ── Staged rename cancel ─────────────────────────────────────────

#[test]
fn compact_staged_rename_cancels_old_add() {
    // touch x (staged), mv x y → kernel emits: ADD(x,1) + DEL(x) + ADD(y,1)
    let records = vec![
        Record::Added {
            path: "/x".into(),
            dtype: Some(DType::File),
            ino: 1,
        },
        Record::Deleted { path: "/x".into() },
        Record::Added {
            path: "/y".into(),
            dtype: Some(DType::File),
            ino: 1,
        },
    ];
    let al = compact(records);
    assert_eq!(al.0.len(), 1, "expected single Add at /y, got: {:?}", al.0);
    assert!(matches!(&al.0[0], Action::Add { path, ino: 1, .. } if path == "/y"));
}

// ── Merge modifies ──────────────────────────────────────────────

#[test]
fn compact_merge_duplicate_modifies() {
    let records = vec![
        Record::Modified {
            path: "/x".into(),
            dtype: Some(DType::File),
            ino: 1,
        },
        Record::Modified {
            path: "/x".into(),
            dtype: Some(DType::File),
            ino: 2,
        },
    ];
    let al = compact(records);
    assert_eq!(al.0.len(), 1);
    assert!(matches!(&al.0[0], Action::Modify { ino: 2, .. }));
}

// ── Decompose rename+modify ─────────────────────────────────────

#[test]
fn compact_rename_then_modify_decomposes() {
    let records = vec![
        Record::Redirect {
            old: "/a".into(),
            new: "/b".into(),
            dtype: Some(DType::File),
        },
        Record::Modified {
            path: "/b".into(),
            dtype: Some(DType::File),
            ino: 5,
        },
    ];
    let al = compact(records);
    assert_eq!(al.0.len(), 2, "expected D(a) + A(b,5), got: {:?}", al.0);
    assert!(matches!(&al.0[0], Action::Delete { path } if path == "/a"));
    assert!(
        matches!(&al.0[1], Action::Add { path, ino: 5, .. } if path == "/b"),
        "R+M should decompose to D+A, got: {:?}",
        al.0[1]
    );
}

#[test]
fn compact_replace_then_modify_decomposes() {
    let records = vec![
        Record::Replace {
            old: "/a".into(),
            new: "/b".into(),
            dtype: Some(DType::File),
        },
        Record::Modified {
            path: "/b".into(),
            dtype: Some(DType::File),
            ino: 5,
        },
    ];
    let al = compact(records);
    assert_eq!(al.0.len(), 2, "expected D(a) + M(b,5), got: {:?}", al.0);
    assert!(matches!(&al.0[0], Action::Delete { path } if path == "/a"));
    assert!(
        matches!(&al.0[1], Action::Modify { path, ino: 5, .. } if path == "/b"),
        "P+M should decompose to D+M, got: {:?}",
        al.0[1]
    );
}

// ── Independent renames ──────────────────────────────────────────

#[test]
fn independent_renames_stay_separate() {
    let records = vec![
        Record::Redirect {
            old: "/a".into(),
            new: "/b".into(),
            dtype: Some(DType::File),
        },
        Record::Redirect {
            old: "/c".into(),
            new: "/d".into(),
            dtype: Some(DType::File),
        },
    ];
    let al = compact(records);
    assert_eq!(al.0.len(), 2);
}

// ── Empty input ─────────────────────────────────────────────────

#[test]
fn compact_empty() {
    let al = compact(vec![]);
    assert!(al.0.is_empty());
}

// ── CKP/RST records filtered ────────────────────────────────────────

#[test]
fn compact_checkpoint_and_restore_filtered() {
    let records = vec![
        Record::Added {
            path: "/a".into(),
            dtype: Some(DType::File),
            ino: 1,
        },
        Record::Checkpoint {
            gen_id: 1,
            name: "test".into(),
        },
        Record::Restore {
            gen_id: 2,
            target_gen: 1,
        },
    ];
    let al = compact(records);
    assert_eq!(al.0.len(), 1);
    assert!(matches!(&al.0[0], Action::Add { path, .. } if path == "/a"));
}

// ── Decompose cancellation on intervening action ────────────────

#[test]
fn intervening_add_prevents_decompose() {
    // RDR(a,b) + ADD(b,5) + MOD(b,7): the Add at /b should cancel
    // the rename-dest tracking so MOD(b) is NOT decomposed with RDR(a,b).
    let records = vec![
        Record::Redirect {
            old: "/a".into(),
            new: "/b".into(),
            dtype: Some(DType::File),
        },
        Record::Added {
            path: "/b".into(),
            dtype: Some(DType::File),
            ino: 5,
        },
        Record::Modified {
            path: "/b".into(),
            dtype: Some(DType::File),
            ino: 7,
        },
    ];
    let al = compact(records);
    assert!(
        al.0.iter().any(|a| matches!(a, Action::Rename { old, new, .. } if old == "/a" && new == "/b")),
        "rename should survive intact, got: {:?}",
        al.0
    );
}

#[test]
fn compact_intervening_delete_prevents_decompose() {
    // RDR(a,b) + DEL(b) + MOD(b,5): the Delete at /b should cancel
    // the rename-dest tracking so MOD(b) is NOT decomposed with RDR(a,b).
    let records = vec![
        Record::Redirect {
            old: "/a".into(),
            new: "/b".into(),
            dtype: Some(DType::File),
        },
        Record::Deleted { path: "/b".into() },
        Record::Modified {
            path: "/b".into(),
            dtype: Some(DType::File),
            ino: 5,
        },
    ];
    let al = compact(records);
    // RDR(a,b) stays as Rename, DEL(b) cancels with MOD(b), leaving just the rename.
    assert!(
        al.0.iter().any(|a| matches!(a, Action::Rename { old, new, .. } if old == "/a" && new == "/b")),
        "rename should survive intact, got: {:?}",
        al.0
    );
}

// ── Replace overwrite tracking ──────────────────────────────────

#[test]
fn compact_replace_produces_replace_action() {
    let records = vec![Record::Replace {
        old: "/a".into(),
        new: "/b".into(),
        dtype: Some(DType::File),
    }];
    let al = compact(records);
    assert_eq!(al.0.len(), 1);
    assert!(matches!(&al.0[0], Action::Replace { old, new, .. } if old == "/a" && new == "/b"));
}

// ── DType::Dir coverage ─────────────────────────────────────────

#[test]
fn dir_add_then_delete_cancels() {
    let records = vec![
        Record::Added {
            path: "/d".into(),
            dtype: Some(DType::Dir),
            ino: 1,
        },
        Record::Deleted { path: "/d".into() },
    ];
    let al = compact(records);
    assert!(al.0.is_empty(), "A(dir)+D should cancel, got: {:?}", al.0);
}

#[test]
fn dir_rename_then_modify_decomposes() {
    let records = vec![
        Record::Redirect {
            old: "/a".into(),
            new: "/b".into(),
            dtype: Some(DType::Dir),
        },
        Record::Modified {
            path: "/b".into(),
            dtype: Some(DType::Dir),
            ino: 5,
        },
    ];
    let al = compact(records);
    assert_eq!(al.0.len(), 2, "expected D(a) + A(b,5), got: {:?}", al.0);
    assert!(matches!(&al.0[0], Action::Delete { path } if path == "/a"));
    assert!(
        matches!(&al.0[1], Action::Add { path, ino: 5, dtype: DType::Dir } if path == "/b"),
        "dir RDR+MOD should decompose to DEL+ADD(dir), got: {:?}",
        al.0[1]
    );
}

#[test]
fn dir_merge_modifies() {
    let records = vec![
        Record::Modified {
            path: "/d".into(),
            dtype: Some(DType::Dir),
            ino: 1,
        },
        Record::Modified {
            path: "/d".into(),
            dtype: Some(DType::Dir),
            ino: 2,
        },
    ];
    let al = compact(records);
    assert_eq!(al.0.len(), 1);
    assert!(matches!(&al.0[0], Action::Modify { ino: 2, dtype: DType::Dir, .. }));
}

// ── Replace edge cases ───────────────────────────────────────────

#[test]
fn replace_then_delete_at_dest() {
    // REP(a,b) + DEL(b): Delete at destination does not cancel Replace;
    // Rename tracking is cleared so both survive.
    let records = vec![
        Record::Replace {
            old: "/a".into(),
            new: "/b".into(),
            dtype: Some(DType::File),
        },
        Record::Deleted { path: "/b".into() },
    ];
    let al = compact(records);
    assert!(
        al.0.iter().any(|a| matches!(a, Action::Replace { old, new, .. } if old == "/a" && new == "/b")),
        "Replace should survive, got: {:?}",
        al.0
    );
    assert!(
        al.0.iter().any(|a| matches!(a, Action::Delete { path } if path == "/b")),
        "Delete should survive, got: {:?}",
        al.0
    );
}

#[test]
fn replace_then_rename_from_dest() {
    // REP(a,b) + RDR(b,c): Replace followed by Rename from destination.
    let records = vec![
        Record::Replace {
            old: "/a".into(),
            new: "/b".into(),
            dtype: Some(DType::File),
        },
        Record::Redirect {
            old: "/b".into(),
            new: "/c".into(),
            dtype: Some(DType::File),
        },
    ];
    let al = compact(records);
    assert_eq!(al.0.len(), 2, "both actions should survive, got: {:?}", al.0);
    assert!(matches!(&al.0[0], Action::Replace { old, new, .. } if old == "/a" && new == "/b"));
    assert!(matches!(&al.0[1], Action::Rename { old, new, .. } if old == "/b" && new == "/c"));
}

// ── Multi-segment resolution (via SegmentedJournal pipeline) ─────
//
// These verify that compact().collapse() produces correct results
// when records span checkpoint boundaries and are filtered by liveness.

/// Helper: run the full pipeline on raw records including CKP/RST markers.
fn resolve_all(records: Vec<Record>) -> Vec<(String, Change)> {
    let sj = SegmentedJournal::new(RawJournal(records));
    let live = sj.live().into_records();
    let al = compact(live);
    al.collapse().0
}

#[test]
fn compact_segments_add_delete_readd_across_checkpoints() {
    // Seg0: ADD(x) | CKP1 | Seg1: DEL(x) | CKP2 | Seg2: ADD(x, new ino)
    let records = vec![
        Record::Added {
            path: "/x".into(),
            dtype: Some(DType::File),
            ino: 1,
        },
        Record::Checkpoint {
            gen_id: 1,
            name: "k1".into(),
        },
        Record::Deleted { path: "/x".into() },
        Record::Checkpoint {
            gen_id: 2,
            name: "k2".into(),
        },
        Record::Added {
            path: "/x".into(),
            dtype: Some(DType::File),
            ino: 2,
        },
    ];
    let cs = resolve_all(records);
    assert!(
        cs.iter()
            .any(|(p, c)| p == "/x"
                && matches!(c, Change::Added { ino: 2, .. })),
        "x should be Added with ino=2, got: {cs:?}",
    );
}

#[test]
fn compact_segments_base_modify_across_checkpoints() {
    // Seg0: MOD(x, ino=1) | CKP1 | Seg1: MOD(x, ino=2)
    let records = vec![
        Record::Modified {
            path: "/x".into(),
            dtype: Some(DType::File),
            ino: 1,
        },
        Record::Checkpoint {
            gen_id: 1,
            name: "k1".into(),
        },
        Record::Modified {
            path: "/x".into(),
            dtype: Some(DType::File),
            ino: 2,
        },
    ];
    let cs = resolve_all(records);
    assert!(
        cs.iter()
            .any(|(p, c)| p == "/x"
                && matches!(c, Change::Modified { ino: 2, .. })),
        "x should be Modified with latest ino=2, got: {cs:?}",
    );
}

#[test]
fn compact_segments_delete_in_later_segment() {
    // Seg0: MOD(x, ino=1) | CKP1 | Seg1: DEL(x)
    let records = vec![
        Record::Modified {
            path: "/x".into(),
            dtype: Some(DType::File),
            ino: 1,
        },
        Record::Checkpoint {
            gen_id: 1,
            name: "k1".into(),
        },
        Record::Deleted { path: "/x".into() },
    ];
    let cs = resolve_all(records);
    assert!(
        cs.iter()
            .any(|(p, c)| p == "/x" && matches!(c, Change::Deleted)),
        "x should be Deleted, got: {cs:?}",
    );
}

#[test]
fn compact_segments_rename_across_checkpoints() {
    // Seg0: RDR(a, b) | CKP1 | Seg1: MOD(b, ino=5)
    // After decompose: RDR(a,b) + MOD(b,5) → DEL(a) + ADD(b,5)
    let records = vec![
        Record::Redirect {
            old: "/a".into(),
            new: "/b".into(),
            dtype: Some(DType::File),
        },
        Record::Checkpoint {
            gen_id: 1,
            name: "k1".into(),
        },
        Record::Modified {
            path: "/b".into(),
            dtype: Some(DType::File),
            ino: 5,
        },
    ];
    let cs = resolve_all(records);
    let has_del_a = cs
        .iter()
        .any(|(p, c)| p == "/a" && matches!(c, Change::Deleted));
    let has_add_b = cs.iter().any(|(p, c)| {
        p == "/b" && matches!(c, Change::Added { ino: 5, .. })
    });
    assert!(has_del_a, "a should be Deleted, got: {cs:?}");
    assert!(has_add_b, "b should be Added(ino=5), got: {cs:?}");
}

#[test]
fn compact_segments_restore_kills_dead_segment() {
    // Seg0: ADD(x) | CKP1 | Seg1: ADD(y) | CKP2 | RST3(target=CKP1) | Seg3: ADD(z)
    // Restore to CKP1 means Seg1 is dead.
    let records = vec![
        Record::Added {
            path: "/x".into(),
            dtype: Some(DType::File),
            ino: 1,
        },
        Record::Checkpoint {
            gen_id: 1,
            name: "k1".into(),
        },
        Record::Added {
            path: "/y".into(),
            dtype: Some(DType::File),
            ino: 2,
        },
        Record::Checkpoint {
            gen_id: 2,
            name: "k2".into(),
        },
        Record::Restore {
            gen_id: 3,
            target_gen: 1,
        },
        Record::Added {
            path: "/z".into(),
            dtype: Some(DType::File),
            ino: 3,
        },
    ];
    let cs = resolve_all(records);
    let paths: Vec<&str> = cs.iter().map(|(p, _)| p.as_str()).collect();
    assert!(paths.contains(&"/x"), "x should be live: {paths:?}");
    assert!(
        !paths.contains(&"/y"),
        "y should be dead (restored past): {paths:?}"
    );
    assert!(
        paths.contains(&"/z"),
        "z should be live (post-restore): {paths:?}"
    );
}

#[test]
fn compact_segments_delete_recreate_same_path_across_checkpoints() {
    // Seg0: DEL(x) | CKP1 | Seg1: ADD(x, ino=2)
    let records = vec![
        Record::Deleted { path: "/x".into() },
        Record::Checkpoint {
            gen_id: 1,
            name: "k1".into(),
        },
        Record::Added {
            path: "/x".into(),
            dtype: Some(DType::File),
            ino: 2,
        },
    ];
    let cs = resolve_all(records);
    assert!(
        cs.iter()
            .any(|(p, c)| p == "/x"
                && matches!(c, Change::Added { ino: 2, .. })),
        "x should be Added(ino=2) after delete+recreate, got: {cs:?}",
    );
}
