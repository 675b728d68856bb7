//! Simplifying records into actions with chains of moves collapsed.
use agfs::dtype::DType;
use agfs::replay::segment::SegmentedJournal;
use agfs::replay::simplify::simplify;
use agfs::replay::types::{Action, Change, RawJournal, Record};

// ── Chain collapse ───────────────────────────────────────────────

#[test]
fn simple_chain_collapses() {
    let records = vec![
        Record::Redirect {
            old: "/a".into(),
            new: "/b".into(),
            dtype: Some(DType::File),
        },
        Record::Redirect {
            old: "/b".into(),
            new: "/c".into(),
            dtype: Some(DType::File),
        },
    ];
    let al = simplify(records);
    assert_eq!(al.0.len(), 1);
    assert!(matches!(&al.0[0], Action::Rename { old, new, .. } if old == "/a" && new == "/c"));
}

#[test]
fn three_step_chain_collapses() {
    let records = vec![
        Record::Redirect {
            old: "/a".into(),
            new: "/b".into(),
            dtype: Some(DType::File),
        },
        Record::Redirect {
            old: "/b".into(),
            new: "/c".into(),
            dtype: Some(DType::File),
        },
        Record::Redirect {
            old: "/c".into(),
            new: "/d".into(),
            dtype: Some(DType::File),
        },
    ];
    let al = simplify(records);
    assert_eq!(al.0.len(), 1);
    assert!(matches!(&al.0[0], Action::Rename { old, new, .. } if old == "/a" && new == "/d"));
}

#[test]
fn two_cycle_swap_not_collapsed() {
    let records = vec![
        Record::Redirect {
            old: "/a".into(),
            new: "/tmp".into(),
            dtype: Some(DType::File),
        },
        Record::Redirect {
            old: "/b".into(),
            new: "/a".into(),
            dtype: Some(DType::File),
        },
        Record::Redirect {
            old: "/tmp".into(),
            new: "/b".into(),
            dtype: Some(DType::File),
        },
    ];
    let al = simplify(records);
    // All 3 renames remain (cycle: a→tmp→b and b→a→tmp forms a cycle)
    assert_eq!(
        al.0.len(),
        3,
        "cyclic swap should not collapse, got: {:?}",
        al.0
    );
}

#[test]
fn three_cycle_rotation_not_collapsed() {
    let records = vec![
        Record::Redirect {
            old: "/a".into(),
            new: "/tmp".into(),
            dtype: Some(DType::File),
        },
        Record::Redirect {
            old: "/b".into(),
            new: "/a".into(),
            dtype: Some(DType::File),
        },
        Record::Redirect {
            old: "/c".into(),
            new: "/b".into(),
            dtype: Some(DType::File),
        },
        Record::Redirect {
            old: "/tmp".into(),
            new: "/c".into(),
            dtype: Some(DType::File),
        },
    ];
    let al = simplify(records);
    assert_eq!(
        al.0.len(),
        4,
        "3-cycle rotation should not collapse, got: {:?}",
        al.0
    );
}

// ── Cancel ───────────────────────────────────────────────────────

#[test]
fn simplify_add_then_delete_cancels() {
    let records = vec![
        Record::Added {
            path: "/x".into(),
            dtype: Some(DType::File),
            ino: 1,
        },
        Record::Deleted { path: "/x".into() },
    ];
    let al = simplify(records);
    assert!(al.0.is_empty(), "A+D should cancel, got: {:?}", al.0);
}

#[test]
fn simplify_modify_then_delete_keeps_delete() {
    let records = vec![
        Record::Modified {
            path: "/x".into(),
            dtype: Some(DType::File),
            ino: 1,
        },
        Record::Deleted { path: "/x".into() },
    ];
    let al = simplify(records);
    assert_eq!(al.0.len(), 1);
    assert!(matches!(&al.0[0], Action::Delete { path } if path == "/x"));
}

// ── Staged rename cancel ─────────────────────────────────────────

#[test]
fn simplify_staged_rename_cancels_old_add() {
    // touch x (staged), mv x y → kernel emits: A(x,1) + D(x) + A(y,1)
    let records = vec![
        Record::Added {
            path: "/x".into(),
            dtype: Some(DType::File),
            ino: 1,
        },
        Record::Deleted { path: "/x".into() },
        Record::Added {
            path: "/y".into(),
            dtype: Some(DType::File),
            ino: 1,
        },
    ];
    let al = simplify(records);
    assert_eq!(al.0.len(), 1, "expected single Add at /y, got: {:?}", al.0);
    assert!(matches!(&al.0[0], Action::Add { path, ino: 1, .. } if path == "/y"));
}

// ── Merge modifies ──────────────────────────────────────────────

#[test]
fn simplify_merge_duplicate_modifies() {
    let records = vec![
        Record::Modified {
            path: "/x".into(),
            dtype: Some(DType::File),
            ino: 1,
        },
        Record::Modified {
            path: "/x".into(),
            dtype: Some(DType::File),
            ino: 2,
        },
    ];
    let al = simplify(records);
    assert_eq!(al.0.len(), 1);
    assert!(matches!(&al.0[0], Action::Modify { ino: 2, .. }));
}

// ── Decompose rename+modify ─────────────────────────────────────

#[test]
fn simplify_rename_then_modify_decomposes() {
    let records = vec![
        Record::Redirect {
            old: "/a".into(),
            new: "/b".into(),
            dtype: Some(DType::File),
        },
        Record::Modified {
            path: "/b".into(),
            dtype: Some(DType::File),
            ino: 5,
        },
    ];
    let al = simplify(records);
    assert_eq!(al.0.len(), 2, "expected D(a) + A(b,5), got: {:?}", al.0);
    assert!(matches!(&al.0[0], Action::Delete { path } if path == "/a"));
    assert!(
        matches!(&al.0[1], Action::Add { path, ino: 5, .. } if path == "/b"),
        "R+M should decompose to D+A, got: {:?}",
        al.0[1]
    );
}

#[test]
fn simplify_replace_then_modify_decomposes() {
    let records = vec![
        Record::Replace {
            old: "/a".into(),
            new: "/b".into(),
            dtype: Some(DType::File),
        },
        Record::Modified {
            path: "/b".into(),
            dtype: Some(DType::File),
            ino: 5,
        },
    ];
    let al = simplify(records);
    assert_eq!(al.0.len(), 2, "expected D(a) + M(b,5), got: {:?}", al.0);
    assert!(matches!(&al.0[0], Action::Delete { path } if path == "/a"));
    assert!(
        matches!(&al.0[1], Action::Modify { path, ino: 5, .. } if path == "/b"),
        "P+M should decompose to D+M, got: {:?}",
        al.0[1]
    );
}

// ── Interleaved chains ──────────────────────────────────────────

#[test]
fn independent_renames_not_collapsed() {
    let records = vec![
        Record::Redirect {
            old: "/a".into(),
            new: "/b".into(),
            dtype: Some(DType::File),
        },
        Record::Redirect {
            old: "/c".into(),
            new: "/d".into(),
            dtype: Some(DType::File),
        },
    ];
    let al = simplify(records);
    assert_eq!(al.0.len(), 2);
}

// ── Empty input ─────────────────────────────────────────────────

#[test]
fn simplify_empty() {
    let al = simplify(vec![]);
    assert!(al.0.is_empty());
}

// ── K/S records filtered ────────────────────────────────────────

#[test]
fn simplify_checkpoint_and_restore_filtered() {
    let records = vec![
        Record::Added {
            path: "/a".into(),
            dtype: Some(DType::File),
            ino: 1,
        },
        Record::Checkpoint {
            gen_id: 1,
            name: "test".into(),
        },
        Record::Restore {
            gen_id: 2,
            target_gen: 1,
        },
    ];
    let al = simplify(records);
    assert_eq!(al.0.len(), 1);
    assert!(matches!(&al.0[0], Action::Add { path, .. } if path == "/a"));
}

// ── Chain collapse preserves dtype ──────────────────────────────

#[test]
fn chain_collapse_preserves_head_dtype() {
    let records = vec![
        Record::Redirect {
            old: "/a".into(),
            new: "/b".into(),
            dtype: Some(DType::Dir),
        },
        Record::Redirect {
            old: "/b".into(),
            new: "/c".into(),
            dtype: Some(DType::Dir),
        },
    ];
    let al = simplify(records);
    assert_eq!(al.0.len(), 1);
    assert!(
        matches!(&al.0[0], Action::Rename { old, new, dtype: DType::Dir } if old == "/a" && new == "/c"),
        "dtype should be Dir, got: {:?}",
        al.0[0]
    );
}

// ── Temporal ordering in chain collapse ────────────────────────

#[test]
fn backward_chain_not_collapsed() {
    // R(b,c) at i=0 then R(a,b) at i=1 — b→c happened before a→b
    // exists, so they must NOT collapse.
    let records = vec![
        Record::Redirect {
            old: "/b".into(),
            new: "/c".into(),
            dtype: Some(DType::File),
        },
        Record::Redirect {
            old: "/a".into(),
            new: "/b".into(),
            dtype: Some(DType::File),
        },
    ];
    let al = simplify(records);
    assert_eq!(
        al.0.len(),
        2,
        "backward chain must not collapse, got: {:?}",
        al.0
    );
}

#[test]
fn three_element_backward_chain_not_collapsed() {
    // c→d at i=0, b→c at i=1, a→b at i=2: all backward, none should collapse.
    let records = vec![
        Record::Redirect {
            old: "/c".into(),
            new: "/d".into(),
            dtype: Some(DType::File),
        },
        Record::Redirect {
            old: "/b".into(),
            new: "/c".into(),
            dtype: Some(DType::File),
        },
        Record::Redirect {
            old: "/a".into(),
            new: "/b".into(),
            dtype: Some(DType::File),
        },
    ];
    let al = simplify(records);
    assert_eq!(
        al.0.len(),
        3,
        "all backward chains should remain, got: {:?}",
        al.0
    );
}

#[test]
fn mixed_forward_backward_chain_partial_collapse() {
    // a→b at i=0 (forward), c→d at i=1 (independent), b→c at i=2
    // a→b + b→c should collapse to a→c, c→d stays.
    let records = vec![
        Record::Redirect {
            old: "/a".into(),
            new: "/b".into(),
            dtype: Some(DType::File),
        },
        Record::Redirect {
            old: "/c".into(),
            new: "/d".into(),
            dtype: Some(DType::File),
        },
        Record::Redirect {
            old: "/b".into(),
            new: "/c".into(),
            dtype: Some(DType::File),
        },
    ];
    let al = simplify(records);
    assert_eq!(
        al.0.len(),
        2,
        "a→b + b→c should collapse, c→d stays, got: {:?}",
        al.0
    );
}

// ── Replace chain collapse ──────────────────────────────────────

#[test]
fn replace_chain_collapses() {
    let records = vec![
        Record::Replace {
            old: "/a".into(),
            new: "/b".into(),
            dtype: Some(DType::File),
        },
        Record::Replace {
            old: "/b".into(),
            new: "/c".into(),
            dtype: Some(DType::File),
        },
    ];
    let al = simplify(records);
    assert_eq!(al.0.len(), 1, "P(a,b)+P(b,c) should collapse, got: {:?}", al.0);
    assert!(
        matches!(&al.0[0], Action::Replace { old, new, .. } if old == "/a" && new == "/c"),
        "expected P(a,c), got: {:?}",
        al.0[0]
    );
}

#[test]
fn mixed_rename_replace_chain_collapses() {
    // R(a,b) + P(b,c): head is Rename, tail is Replace.
    // Chain should collapse; head keeps its type (Rename).
    let records = vec![
        Record::Redirect {
            old: "/a".into(),
            new: "/b".into(),
            dtype: Some(DType::File),
        },
        Record::Replace {
            old: "/b".into(),
            new: "/c".into(),
            dtype: Some(DType::File),
        },
    ];
    let al = simplify(records);
    assert_eq!(
        al.0.len(),
        1,
        "R(a,b)+P(b,c) should collapse, got: {:?}",
        al.0
    );
    assert!(
        matches!(&al.0[0], Action::Rename { old, new, .. } if old == "/a" && new == "/c"),
        "head type (Rename) preserved, got: {:?}",
        al.0[0]
    );
}

#[test]
fn mixed_replace_rename_chain_collapses() {
    // P(a,b) + R(b,c): head is Replace, tail is Rename.
    let records = vec![
        Record::Replace {
            old: "/a".into(),
            new: "/b".into(),
            dtype: Some(DType::File),
        },
        Record::Redirect {
            old: "/b".into(),
            new: "/c".into(),
            dtype: Some(DType::File),
        },
    ];
    let al = simplify(records);
    assert_eq!(
        al.0.len(),
        1,
        "P(a,b)+R(b,c) should collapse, got: {:?}",
        al.0
    );
    assert!(
        matches!(&al.0[0], Action::Replace { old, new, .. } if old == "/a" && new == "/c"),
        "head type (Replace) preserved, got: {:?}",
        al.0[0]
    );
}

// ── Decompose cancellation on intervening action ────────────────

#[test]
fn simplify_intervening_delete_prevents_decompose() {
    // R(a,b) + D(b) + M(b,5): the Delete at /b should cancel
    // the rename-dest tracking so M(b) is NOT decomposed with R(a,b).
    let records = vec![
        Record::Redirect {
            old: "/a".into(),
            new: "/b".into(),
            dtype: Some(DType::File),
        },
        Record::Deleted { path: "/b".into() },
        Record::Modified {
            path: "/b".into(),
            dtype: Some(DType::File),
            ino: 5,
        },
    ];
    let al = simplify(records);
    // R(a,b) stays as Rename, D(b) cancels with M(b), leaving just the rename.
    assert!(
        al.0.iter().any(|a| matches!(a, Action::Rename { old, new, .. } if old == "/a" && new == "/b")),
        "rename should survive intact, got: {:?}",
        al.0
    );
}

// ── Replace overwrite tracking ──────────────────────────────────

#[test]
fn simplify_replace_produces_replace_action() {
    let records = vec![Record::Replace {
        old: "/a".into(),
        new: "/b".into(),
        dtype: Some(DType::File),
    }];
    let al = simplify(records);
    assert_eq!(al.0.len(), 1);
    assert!(matches!(&al.0[0], Action::Replace { old, new, .. } if old == "/a" && new == "/b"));
}

// ── Mixed Replace + Redirect chain ──────────────────────────────

#[test]
fn replace_then_redirect_chain_collapses() {
    // P(a→b) + R(b→c) → P(a→c): head keeps Replace type
    let records = vec![
        Record::Replace {
            old: "/a".into(),
            new: "/b".into(),
            dtype: Some(DType::File),
        },
        Record::Redirect {
            old: "/b".into(),
            new: "/c".into(),
            dtype: Some(DType::File),
        },
    ];
    let al = simplify(records);
    assert_eq!(
        al.0.len(),
        1,
        "P+R chain should collapse, got: {:?}",
        al.0
    );
    assert!(
        matches!(&al.0[0], Action::Replace { old, new, .. } if old == "/a" && new == "/c"),
        "expected P(a,c), got: {:?}",
        al.0[0]
    );
}

// ── Multi-segment resolution (via SegmentedJournal pipeline) ─────
//
// These verify that simplify().collapse() produces correct results
// when records span checkpoint boundaries and are filtered by liveness.

/// Helper: run the full pipeline on raw records including K/S markers.
fn resolve_all(records: Vec<Record>) -> Vec<(String, Change)> {
    let sj = SegmentedJournal::new(RawJournal(records));
    let live = sj.live().into_records();
    let al = simplify(live);
    al.collapse().0
}

#[test]
fn simplify_segments_add_delete_readd_across_checkpoints() {
    // Seg0: A(x) | K1 | Seg1: D(x) | K2 | Seg2: A(x, new ino)
    let records = vec![
        Record::Added {
            path: "/x".into(),
            dtype: Some(DType::File),
            ino: 1,
        },
        Record::Checkpoint {
            gen_id: 1,
            name: "k1".into(),
        },
        Record::Deleted { path: "/x".into() },
        Record::Checkpoint {
            gen_id: 2,
            name: "k2".into(),
        },
        Record::Added {
            path: "/x".into(),
            dtype: Some(DType::File),
            ino: 2,
        },
    ];
    let cs = resolve_all(records);
    assert!(
        cs.iter()
            .any(|(p, c)| p == "/x"
                && matches!(c, Change::Added { ino: 2, .. })),
        "x should be Added with ino=2, got: {cs:?}",
    );
}

#[test]
fn simplify_segments_base_modify_across_checkpoints() {
    // Seg0: M(x, ino=1) | K1 | Seg1: M(x, ino=2)
    let records = vec![
        Record::Modified {
            path: "/x".into(),
            dtype: Some(DType::File),
            ino: 1,
        },
        Record::Checkpoint {
            gen_id: 1,
            name: "k1".into(),
        },
        Record::Modified {
            path: "/x".into(),
            dtype: Some(DType::File),
            ino: 2,
        },
    ];
    let cs = resolve_all(records);
    assert!(
        cs.iter()
            .any(|(p, c)| p == "/x"
                && matches!(c, Change::Modified { ino: 2, .. })),
        "x should be Modified with latest ino=2, got: {cs:?}",
    );
}

#[test]
fn simplify_segments_delete_in_later_segment() {
    // Seg0: M(x, ino=1) | K1 | Seg1: D(x)
    let records = vec![
        Record::Modified {
            path: "/x".into(),
            dtype: Some(DType::File),
            ino: 1,
        },
        Record::Checkpoint {
            gen_id: 1,
            name: "k1".into(),
        },
        Record::Deleted { path: "/x".into() },
    ];
    let cs = resolve_all(records);
    assert!(
        cs.iter()
            .any(|(p, c)| p == "/x" && matches!(c, Change::Deleted)),
        "x should be Deleted, got: {cs:?}",
    );
}

#[test]
fn simplify_segments_rename_across_checkpoints() {
    // Seg0: R(a, b) | K1 | Seg1: M(b, ino=5)
    // After decompose: R(a,b) + M(b,5) → D(a) + A(b,5)
    let records = vec![
        Record::Redirect {
            old: "/a".into(),
            new: "/b".into(),
            dtype: Some(DType::File),
        },
        Record::Checkpoint {
            gen_id: 1,
            name: "k1".into(),
        },
        Record::Modified {
            path: "/b".into(),
            dtype: Some(DType::File),
            ino: 5,
        },
    ];
    let cs = resolve_all(records);
    let has_del_a = cs
        .iter()
        .any(|(p, c)| p == "/a" && matches!(c, Change::Deleted));
    let has_add_b = cs.iter().any(|(p, c)| {
        p == "/b" && matches!(c, Change::Added { ino: 5, .. })
    });
    assert!(has_del_a, "a should be Deleted, got: {cs:?}");
    assert!(has_add_b, "b should be Added(ino=5), got: {cs:?}");
}

#[test]
fn simplify_segments_redirect_rename_across_checkpoints() {
    // Seg0: R(a, b) | K1 | Seg1: R(b, c) — chain should collapse to R(a, c)
    let records = vec![
        Record::Redirect {
            old: "/a".into(),
            new: "/b".into(),
            dtype: Some(DType::File),
        },
        Record::Checkpoint {
            gen_id: 1,
            name: "k1".into(),
        },
        Record::Redirect {
            old: "/b".into(),
            new: "/c".into(),
            dtype: Some(DType::File),
        },
    ];
    let cs = resolve_all(records);
    let has_renamed = cs.iter().any(|(p, c)| {
        p == "/c"
            && matches!(c, Change::Renamed { from, .. } if from == "/a")
    });
    assert!(
        has_renamed,
        "expected Renamed(a→c) after cross-checkpoint chain, got: {cs:?}",
    );
}

#[test]
fn simplify_segments_restore_kills_dead_segment() {
    // Seg0: A(x) | K1 | Seg1: A(y) | K2 | S3(target=K1) | Seg3: A(z)
    // Restore to K1 means Seg1 is dead.
    let records = vec![
        Record::Added {
            path: "/x".into(),
            dtype: Some(DType::File),
            ino: 1,
        },
        Record::Checkpoint {
            gen_id: 1,
            name: "k1".into(),
        },
        Record::Added {
            path: "/y".into(),
            dtype: Some(DType::File),
            ino: 2,
        },
        Record::Checkpoint {
            gen_id: 2,
            name: "k2".into(),
        },
        Record::Restore {
            gen_id: 3,
            target_gen: 1,
        },
        Record::Added {
            path: "/z".into(),
            dtype: Some(DType::File),
            ino: 3,
        },
    ];
    let cs = resolve_all(records);
    let paths: Vec<&str> = cs.iter().map(|(p, _)| p.as_str()).collect();
    assert!(paths.contains(&"/x"), "x should be live: {paths:?}");
    assert!(
        !paths.contains(&"/y"),
        "y should be dead (restored past): {paths:?}"
    );
    assert!(
        paths.contains(&"/z"),
        "z should be live (post-restore): {paths:?}"
    );
}

#[test]
fn simplify_segments_delete_recreate_same_path_across_checkpoints() {
    // Seg0: D(x) | K1 | Seg1: A(x, ino=2)
    let records = vec![
        Record::Deleted { path: "/x".into() },
        Record::Checkpoint {
            gen_id: 1,
            name: "k1".into(),
        },
        Record::Added {
            path: "/x".into(),
            dtype: Some(DType::File),
            ino: 2,
        },
    ];
    let cs = resolve_all(records);
    assert!(
        cs.iter()
            .any(|(p, c)| p == "/x"
                && matches!(c, Change::Added { ino: 2, .. })),
        "x should be Added(ino=2) after delete+recreate, got: {cs:?}",
    );
}

#[test]
fn segments_preserve_dtype_across_checkpoints() {
    // Seg0: R(a, b, Dir) | K1 | Seg1: R(b, c, Dir)
    // Chain collapses to R(a, c, Dir).
    let records = vec![
        Record::Redirect {
            old: "/a".into(),
            new: "/b".into(),
            dtype: Some(DType::Dir),
        },
        Record::Checkpoint {
            gen_id: 1,
            name: "k1".into(),
        },
        Record::Redirect {
            old: "/b".into(),
            new: "/c".into(),
            dtype: Some(DType::Dir),
        },
    ];
    let cs = resolve_all(records);
    let has_dir_rename = cs.iter().any(|(p, c)| {
        p == "/c"
            && matches!(c, Change::Renamed { from, dtype: DType::Dir, .. } if from == "/a")
    });
    assert!(
        has_dir_rename,
        "expected Renamed(a→c, Dir) with dtype preserved, got: {cs:?}",
    );
}

#[test]
fn replace_then_rename_chain_tracks_overwrites() {
    // P(b→a, overwrites base 'a') then R(a→c): simplify chain-collapses
    // to P(b→c), then collapse produces Replaced(b→c) + Deleted(/b).
    let records = vec![
        Record::Replace {
            old: "/b".into(),
            new: "/a".into(),
            dtype: Some(DType::File),
        },
        Record::Redirect {
            old: "/a".into(),
            new: "/c".into(),
            dtype: Some(DType::File),
        },
    ];
    let cs = resolve_all(records);
    let has_replaced = cs.iter().any(|(p, c)| {
        matches!(c, Change::Replaced { from, .. } if from == "/b" && p == "/c")
    });
    let has_del_b = cs
        .iter()
        .any(|(p, c)| p == "/b" && matches!(c, Change::Deleted));
    assert!(has_replaced, "expected Replaced(b→c), got: {cs:?}");
    assert!(has_del_b, "expected Deleted(/b) as source, got: {cs:?}");
}
