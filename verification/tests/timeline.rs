//! Which records are reachable, and slices of them.
use agfs::dtype::DType;
use agfs::record_log::timeline::Timeline;
use agfs::record_log::types::{Checkpoint, Record};

#[test]
fn timeline_reachable_no_restores() {
    let records = vec![
        Record::Checkpoint(Checkpoint {
            gen_id: 1,
            name: "init".into(),
        }),
        Record::Added {
            path: "/a".into(),
            dtype: Some(DType::File),
            ino: 1,
        },
        Record::Checkpoint(Checkpoint {
            gen_id: 2,
            name: "c2".into(),
        }),
    ];
    let tl = Timeline::new(records);
    let reachable = tl.reachable_records();
    assert_eq!(reachable.len(), 3);
}

#[test]
fn timeline_reachable_single_restore() {
    // K1 [A] K2 [B] K3 S4(K2) [D] K5
    let records = vec![
        Record::Checkpoint(Checkpoint {
            gen_id: 1,
            name: "init".into(),
        }),
        Record::Added {
            path: "/a".into(),
            dtype: Some(DType::File),
            ino: 1,
        },
        Record::Checkpoint(Checkpoint {
            gen_id: 2,
            name: "c2".into(),
        }),
        Record::Added {
            path: "/b".into(),
            dtype: Some(DType::File),
            ino: 2,
        },
        Record::Checkpoint(Checkpoint {
            gen_id: 3,
            name: "c3".into(),
        }),
        Record::Restore {
            gen_id: 4,
            target_gen: 2,
        },
        Record::Added {
            path: "/d".into(),
            dtype: Some(DType::File),
            ino: 3,
        },
        Record::Checkpoint(Checkpoint {
            gen_id: 5,
            name: "c5".into(),
        }),
    ];
    let tl = Timeline::new(records);
    let reachable = tl.reachable_records();
    // Reachable: K1, A(/a), K2, A(/d), K5
    assert_eq!(reachable.len(), 5);
    assert!(matches!(&reachable[0], Record::Checkpoint(c) if c.gen_id == 1));
    assert!(matches!(&reachable[1], Record::Added { path, .. } if path == "/a"));
    assert!(matches!(&reachable[2], Record::Checkpoint(c) if c.gen_id == 2));
    assert!(matches!(&reachable[3], Record::Added { path, .. } if path == "/d"));
    assert!(matches!(&reachable[4], Record::Checkpoint(c) if c.gen_id == 5));
}

#[test]
fn timeline_reachable_multiple_restores_last_wins() {
    // K1 [A] K2 [B] K3 S4(K2) [D] K5 S6(K1)
    let records = vec![
        Record::Checkpoint(Checkpoint {
            gen_id: 1,
            name: "init".into(),
        }),
        Record::Added {
            path: "/a".into(),
            dtype: Some(DType::File),
            ino: 1,
        },
        Record::Checkpoint(Checkpoint {
            gen_id: 2,
            name: "c2".into(),
        }),
        Record::Added {
            path: "/b".into(),
            dtype: Some(DType::File),
            ino: 2,
        },
        Record::Checkpoint(Checkpoint {
            gen_id: 3,
            name: "c3".into(),
        }),
        Record::Restore {
            gen_id: 4,
            target_gen: 2,
        },
        Record::Added {
            path: "/d".into(),
            dtype: Some(DType::File),
            ino: 3,
        },
        Record::Checkpoint(Checkpoint {
            gen_id: 5,
            name: "c5".into(),
        }),
        Record::Restore {
            gen_id: 6,
            target_gen: 1,
        },
    ];
    let tl = Timeline::new(records);
    let reachable = tl.reachable_records();
    // Reachable: K1 only
    assert_eq!(reachable.len(), 1);
    assert!(matches!(&reachable[0], Record::Checkpoint(c) if c.gen_id == 1));
}

#[test]
fn timeline_reachable_nested_s_in_dead_zone() {
    // K1 [A] K2 [B] K3 S4(K1) [D] K5 [E] K6 S7(K5)
    let records = vec![
        Record::Checkpoint(Checkpoint {
            gen_id: 1,
            name: "init".into(),
        }),
        Record::Added {
            path: "/a".into(),
            dtype: Some(DType::File),
            ino: 1,
        },
        Record::Checkpoint(Checkpoint {
            gen_id: 2,
            name: "c2".into(),
        }),
        Record::Added {
            path: "/b".into(),
            dtype: Some(DType::File),
            ino: 2,
        },
        Record::Checkpoint(Checkpoint {
            gen_id: 3,
            name: "c3".into(),
        }),
        Record::Restore {
            gen_id: 4,
            target_gen: 1,
        },
        Record::Added {
            path: "/d".into(),
            dtype: Some(DType::File),
            ino: 3,
        },
        Record::Checkpoint(Checkpoint {
            gen_id: 5,
            name: "c5".into(),
        }),
        Record::Added {
            path: "/e".into(),
            dtype: Some(DType::File),
            ino: 4,
        },
        Record::Checkpoint(Checkpoint {
            gen_id: 6,
            name: "c6".into(),
        }),
        Record::Restore {
            gen_id: 7,
            target_gen: 5,
        },
    ];
    let tl = Timeline::new(records);
    let reachable = tl.reachable_records();
    // S7(K5): reachable prefix up to K5, nothing after S7
    // But prefix K1..K5 contains S4(K1), so recurse:
    //   S4(K1): reachable prefix up to K1, then K5 suffix = [D] K5
    // Final: K1, [D], K5
    assert_eq!(reachable.len(), 3);
    assert!(matches!(&reachable[0], Record::Checkpoint(c) if c.gen_id == 1));
    assert!(matches!(&reachable[1], Record::Added { path, .. } if path == "/d"));
    assert!(matches!(&reachable[2], Record::Checkpoint(c) if c.gen_id == 5));
}

#[test]
fn timeline_reachable_undo_restore() {
    // K1 [A] K2 [B] K3 S4(K1) [D] K5 S6(K3)
    let records = vec![
        Record::Checkpoint(Checkpoint {
            gen_id: 1,
            name: "init".into(),
        }),
        Record::Added {
            path: "/a".into(),
            dtype: Some(DType::File),
            ino: 1,
        },
        Record::Checkpoint(Checkpoint {
            gen_id: 2,
            name: "c2".into(),
        }),
        Record::Added {
            path: "/b".into(),
            dtype: Some(DType::File),
            ino: 2,
        },
        Record::Checkpoint(Checkpoint {
            gen_id: 3,
            name: "c3".into(),
        }),
        Record::Restore {
            gen_id: 4,
            target_gen: 1,
        },
        Record::Added {
            path: "/d".into(),
            dtype: Some(DType::File),
            ino: 3,
        },
        Record::Checkpoint(Checkpoint {
            gen_id: 5,
            name: "c5".into(),
        }),
        Record::Restore {
            gen_id: 6,
            target_gen: 3,
        },
    ];
    let tl = Timeline::new(records);
    let reachable = tl.reachable_records();
    // S6(K3) is last S. Reachable = records[0..=K3] (K3 is at idx 4)
    // No S in that prefix. Reachable: K1 [A] K2 [B] K3
    assert_eq!(reachable.len(), 5);
    assert!(matches!(&reachable[0], Record::Checkpoint(c) if c.gen_id == 1));
    assert!(matches!(&reachable[1], Record::Added { path, .. } if path == "/a"));
    assert!(matches!(&reachable[2], Record::Checkpoint(c) if c.gen_id == 2));
    assert!(matches!(&reachable[3], Record::Added { path, .. } if path == "/b"));
    assert!(matches!(&reachable[4], Record::Checkpoint(c) if c.gen_id == 3));
}

#[test]
fn reachable_restore_to_initial() {
    // K1 [A] K2 S3(K1)
    let records = vec![
        Record::Checkpoint(Checkpoint {
            gen_id: 1,
            name: "init".into(),
        }),
        Record::Added {
            path: "/a".into(),
            dtype: Some(DType::File),
            ino: 1,
        },
        Record::Checkpoint(Checkpoint {
            gen_id: 2,
            name: "c2".into(),
        }),
        Record::Restore {
            gen_id: 3,
            target_gen: 1,
        },
    ];
    let tl = Timeline::new(records);
    let reachable = tl.reachable_records();
    // Reachable: K1 only
    assert_eq!(reachable.len(), 1);
    assert!(matches!(&reachable[0], Record::Checkpoint(c) if c.gen_id == 1));
}

#[test]
fn timeline_reachable_corrupt_s_record_skipped() {
    // S record references non-existent checkpoint gen 99 — should be skipped.
    let records = vec![
        Record::Checkpoint(Checkpoint {
            gen_id: 1,
            name: "init".into(),
        }),
        Record::Added {
            path: "/a".into(),
            dtype: Some(DType::File),
            ino: 1,
        },
        Record::Checkpoint(Checkpoint {
            gen_id: 2,
            name: "c2".into(),
        }),
        Record::Restore {
            gen_id: 3,
            target_gen: 99,
        },
        Record::Added {
            path: "/b".into(),
            dtype: Some(DType::File),
            ino: 2,
        },
    ];
    let tl = Timeline::new(records);
    let reachable = tl.reachable_records();
    // Corrupt S is skipped, all records pass through.
    assert_eq!(reachable.len(), 5);
}

#[test]
fn timeline_reachable_empty_journal() {
    let tl = Timeline::new(vec![]);
    let reachable = tl.reachable_records();
    assert!(reachable.is_empty());
}

#[test]
fn timeline_reachable_consecutive_s_records() {
    // K1 [A] K2 [B] K3 S4(K2) S5(K1)
    // Two consecutive restores: second one "wins" and goes further back.
    let records = vec![
        Record::Checkpoint(Checkpoint {
            gen_id: 1,
            name: "init".into(),
        }),
        Record::Added {
            path: "/a".into(),
            dtype: Some(DType::File),
            ino: 1,
        },
        Record::Checkpoint(Checkpoint {
            gen_id: 2,
            name: "c2".into(),
        }),
        Record::Added {
            path: "/b".into(),
            dtype: Some(DType::File),
            ino: 2,
        },
        Record::Checkpoint(Checkpoint {
            gen_id: 3,
            name: "c3".into(),
        }),
        Record::Restore {
            gen_id: 4,
            target_gen: 2,
        },
        Record::Restore {
            gen_id: 5,
            target_gen: 1,
        },
    ];
    let tl = Timeline::new(records);
    let reachable = tl.reachable_records();
    // S5(K1) kills everything after K1. S4(K2) is in that dead zone.
    assert_eq!(reachable.len(), 1);
    assert!(matches!(&reachable[0], Record::Checkpoint(c) if c.gen_id == 1));
}

#[test]
fn find_checkpoint_by_id() {
    let records = vec![
        Record::Checkpoint(Checkpoint {
            gen_id: 1,
            name: "first".into(),
        }),
        Record::Added {
            path: "/a".into(),
            dtype: Some(DType::File),
            ino: 1,
        },
        Record::Checkpoint(Checkpoint {
            gen_id: 2,
            name: "second".into(),
        }),
    ];
    let tl = Timeline::new(records);
    let (idx, c) = tl.find_checkpoint("1").unwrap();
    assert_eq!(idx, 0);
    assert_eq!(c.gen_id, 1);
}

#[test]
fn timeline_find_checkpoint_by_name() {
    let records = vec![
        Record::Checkpoint(Checkpoint {
            gen_id: 1,
            name: "first".into(),
        }),
        Record::Added {
            path: "/a".into(),
            dtype: Some(DType::File),
            ino: 1,
        },
        Record::Checkpoint(Checkpoint {
            gen_id: 2,
            name: "second".into(),
        }),
    ];
    let tl = Timeline::new(records);
    let (idx, c) = tl.find_checkpoint("second").unwrap();
    assert_eq!(idx, 2);
    assert_eq!(c.gen_id, 2);
}

#[test]
fn timeline_find_checkpoint_not_found() {
    let records = vec![Record::Checkpoint(Checkpoint {
        gen_id: 1,
        name: "first".into(),
    })];
    let tl = Timeline::new(records);
    assert!(tl.find_checkpoint("nonexistent").is_err());
}

#[test]
fn segment_reachability() {
    // K1 [A] K2 [B] K3 S4(K2) [D] K5
    let records = vec![
        Record::Checkpoint(Checkpoint {
            gen_id: 1,
            name: "init".into(),
        }),
        Record::Added {
            path: "/a".into(),
            dtype: Some(DType::File),
            ino: 1,
        },
        Record::Checkpoint(Checkpoint {
            gen_id: 2,
            name: "c2".into(),
        }),
        Record::Added {
            path: "/b".into(),
            dtype: Some(DType::File),
            ino: 2,
        },
        Record::Checkpoint(Checkpoint {
            gen_id: 3,
            name: "c3".into(),
        }),
        Record::Restore {
            gen_id: 4,
            target_gen: 2,
        },
        Record::Added {
            path: "/d".into(),
            dtype: Some(DType::File),
            ino: 3,
        },
        Record::Checkpoint(Checkpoint {
            gen_id: 5,
            name: "c5".into(),
        }),
    ];
    let tl = Timeline::new(records);

    // K1 and K2 are reachable, K3 is not (killed by S4)
    assert!(tl.is_reachable(0)); // K1
    assert!(tl.is_reachable(1)); // A(/a)
    assert!(tl.is_reachable(2)); // K2
    assert!(!tl.is_reachable(3)); // B — dead
    assert!(!tl.is_reachable(4)); // K3 — dead
    assert!(!tl.is_reachable(5)); // S4 — dead
    assert!(tl.is_reachable(6)); // D
    assert!(tl.is_reachable(7)); // K5
}

#[test]
fn records_before_first_checkpoint_skipped() {
    let records = vec![
        Record::Added {
            path: "/orphan".into(),
            dtype: Some(DType::File),
            ino: 999,
        },
        Record::Checkpoint(Checkpoint {
            gen_id: 1,
            name: "init".into(),
        }),
        Record::Added {
            path: "/a".into(),
            dtype: Some(DType::File),
            ino: 1,
        },
        Record::Checkpoint(Checkpoint {
            gen_id: 2,
            name: "c2".into(),
        }),
    ];
    let tl = Timeline::new(records);
    assert_eq!(tl.segments.len(), 1);
    assert_eq!(tl.segments[0].records.len(), 1); // Only /a, not /orphan
    assert!(matches!(&tl.segments[0].records[0], Record::Added { path, .. } if path == "/a"));
}

#[test]
fn timeline_slice_at() {
    let records = vec![
        Record::Checkpoint(Checkpoint {
            gen_id: 1,
            name: "init".into(),
        }),
        Record::Added {
            path: "/a".into(),
            dtype: Some(DType::File),
            ino: 1,
        },
        Record::Checkpoint(Checkpoint {
            gen_id: 2,
            name: "c2".into(),
        }),
        Record::Added {
            path: "/b".into(),
            dtype: Some(DType::File),
            ino: 2,
        },
        Record::Checkpoint(Checkpoint {
            gen_id: 3,
            name: "c3".into(),
        }),
    ];
    let tl = Timeline::new(records);
    let sliced = tl.slice(Some("c3"), None, None).unwrap();
    // Should include K2, A(/b), K3
    assert_eq!(sliced.len(), 3);
    assert!(matches!(&sliced[0], Record::Checkpoint(c) if c.gen_id == 2));
    assert!(matches!(&sliced[1], Record::Added { path, .. } if path == "/b"));
    assert!(matches!(&sliced[2], Record::Checkpoint(c) if c.gen_id == 3));
}

#[test]
fn timeline_slice_from_to() {
    let records = vec![
        Record::Checkpoint(Checkpoint {
            gen_id: 1,
            name: "init".into(),
        }),
        Record::Added {
            path: "/a".into(),
            dtype: Some(DType::File),
            ino: 1,
        },
        Record::Checkpoint(Checkpoint {
            gen_id: 2,
            name: "c2".into(),
        }),
        Record::Added {
            path: "/b".into(),
            dtype: Some(DType::File),
            ino: 2,
        },
        Record::Checkpoint(Checkpoint {
            gen_id: 3,
            name: "c3".into(),
        }),
        Record::Added {
            path: "/c".into(),
            dtype: Some(DType::File),
            ino: 3,
        },
        Record::Checkpoint(Checkpoint {
            gen_id: 4,
            name: "c4".into(),
        }),
    ];
    let tl = Timeline::new(records);
    let sliced = tl.slice(None, Some("c2"), Some("c3")).unwrap();
    // Should include K2, A(/b), K3
    assert_eq!(sliced.len(), 3);
    assert!(matches!(&sliced[0], Record::Checkpoint(c) if c.gen_id == 2));
    assert!(matches!(&sliced[1], Record::Added { path, .. } if path == "/b"));
    assert!(matches!(&sliced[2], Record::Checkpoint(c) if c.gen_id == 3));
}

#[test]
fn timeline_slice_not_found() {
    let records = vec![Record::Checkpoint(Checkpoint {
        gen_id: 1,
        name: "init".into(),
    })];
    let tl = Timeline::new(records);
    assert!(tl.slice(Some("nonexistent"), None, None).is_err());
}
