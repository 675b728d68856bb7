//! Which segments survive restores.
use agfs::dtype::DType;
use agfs::replay::segment::SegmentedJournal;
use agfs::replay::types::{RawJournal, Record};

// ── Helper: collect live records (segments + from checkpoints) ────

fn live_records(records: Vec<Record>) -> Vec<Record> {
    let sj = SegmentedJournal::new(RawJournal(records));
    let live = sj.live();
    let mut result = Vec::new();
    for seg in live.0 {
        if seg.from > 0 {
            result.push(Record::Checkpoint {
                gen_id: seg.from,
                name: String::new(),
            });
        }
        result.extend(seg.records);
    }
    result
}

// ── Alive computation tests ──────────────────────────────────────

#[test]
fn liveness_segment_alive_with_restore() {
    // K1 [A] K2 [B] K3 S4(K2) [D] K5
    let records = vec![
        Record::Checkpoint {
            gen_id: 1,
            name: "init".into(),
        },
        Record::Added {
            path: "/a".into(),
            dtype: Some(DType::File),
            ino: 1,
        },
        Record::Checkpoint {
            gen_id: 2,
            name: "c2".into(),
        },
        Record::Added {
            path: "/b".into(),
            dtype: Some(DType::File),
            ino: 2,
        },
        Record::Checkpoint {
            gen_id: 3,
            name: "c3".into(),
        },
        Record::Restore {
            gen_id: 4,
            target_gen: 2,
        },
        Record::Added {
            path: "/d".into(),
            dtype: Some(DType::File),
            ino: 3,
        },
        Record::Checkpoint {
            gen_id: 5,
            name: "c5".into(),
        },
    ];
    let sj = SegmentedJournal::new(RawJournal(records));
    let alive = sj.markers.alive_segments(sj.segments.len());
    // seg0(None)=alive seg1(K1)=alive seg2(K2)=dead seg3(K3)=dead seg4(K2*)=alive seg5(K5)=alive
    assert!(alive[0]);
    assert!(alive[1]);
    assert!(!alive[2]);
    assert!(!alive[3]);
    assert!(alive[4]);
    assert!(alive[5]);
}

// ── Reachability tests (via live_records helper) ─────────────────

#[test]
fn liveness_reachable_no_restores() {
    let records = vec![
        Record::Checkpoint {
            gen_id: 1,
            name: "init".into(),
        },
        Record::Added {
            path: "/a".into(),
            dtype: Some(DType::File),
            ino: 1,
        },
        Record::Checkpoint {
            gen_id: 2,
            name: "c2".into(),
        },
    ];
    assert_eq!(live_records(records).len(), 3);
}

#[test]
fn liveness_reachable_single_restore() {
    // K1 [A] K2 [B] K3 S4(K2) [D] K5
    let records = vec![
        Record::Checkpoint {
            gen_id: 1,
            name: "init".into(),
        },
        Record::Added {
            path: "/a".into(),
            dtype: Some(DType::File),
            ino: 1,
        },
        Record::Checkpoint {
            gen_id: 2,
            name: "c2".into(),
        },
        Record::Added {
            path: "/b".into(),
            dtype: Some(DType::File),
            ino: 2,
        },
        Record::Checkpoint {
            gen_id: 3,
            name: "c3".into(),
        },
        Record::Restore {
            gen_id: 4,
            target_gen: 2,
        },
        Record::Added {
            path: "/d".into(),
            dtype: Some(DType::File),
            ino: 3,
        },
        Record::Checkpoint {
            gen_id: 5,
            name: "c5".into(),
        },
    ];
    let result = live_records(records);
    assert_eq!(result.len(), 5);
    assert!(matches!(&result[0], Record::Checkpoint { gen_id, .. } if *gen_id == 1));
    assert!(matches!(&result[1], Record::Added { path, .. } if path == "/a"));
    assert!(matches!(&result[2], Record::Checkpoint { gen_id, .. } if *gen_id == 2));
    assert!(matches!(&result[3], Record::Added { path, .. } if path == "/d"));
    assert!(matches!(&result[4], Record::Checkpoint { gen_id, .. } if *gen_id == 5));
}

#[test]
fn liveness_reachable_multiple_restores_last_wins() {
    let records = vec![
        Record::Checkpoint {
            gen_id: 1,
            name: "init".into(),
        },
        Record::Added {
            path: "/a".into(),
            dtype: Some(DType::File),
            ino: 1,
        },
        Record::Checkpoint {
            gen_id: 2,
            name: "c2".into(),
        },
        Record::Added {
            path: "/b".into(),
            dtype: Some(DType::File),
            ino: 2,
        },
        Record::Checkpoint {
            gen_id: 3,
            name: "c3".into(),
        },
        Record::Restore {
            gen_id: 4,
            target_gen: 2,
        },
        Record::Added {
            path: "/d".into(),
            dtype: Some(DType::File),
            ino: 3,
        },
        Record::Checkpoint {
            gen_id: 5,
            name: "c5".into(),
        },
        Record::Restore {
            gen_id: 6,
            target_gen: 1,
        },
    ];
    let result = live_records(records);
    assert_eq!(result.len(), 1);
    assert!(matches!(&result[0], Record::Checkpoint { gen_id, .. } if *gen_id == 1));
}

#[test]
fn liveness_reachable_nested_s_in_dead_zone() {
    // K1 [A] K2 [B] K3 S4(K1) [D] K5 [E] K6 S7(K5)
    let records = vec![
        Record::Checkpoint {
            gen_id: 1,
            name: "init".into(),
        },
        Record::Added {
            path: "/a".into(),
            dtype: Some(DType::File),
            ino: 1,
        },
        Record::Checkpoint {
            gen_id: 2,
            name: "c2".into(),
        },
        Record::Added {
            path: "/b".into(),
            dtype: Some(DType::File),
            ino: 2,
        },
        Record::Checkpoint {
            gen_id: 3,
            name: "c3".into(),
        },
        Record::Restore {
            gen_id: 4,
            target_gen: 1,
        },
        Record::Added {
            path: "/d".into(),
            dtype: Some(DType::File),
            ino: 3,
        },
        Record::Checkpoint {
            gen_id: 5,
            name: "c5".into(),
        },
        Record::Added {
            path: "/e".into(),
            dtype: Some(DType::File),
            ino: 4,
        },
        Record::Checkpoint {
            gen_id: 6,
            name: "c6".into(),
        },
        Record::Restore {
            gen_id: 7,
            target_gen: 5,
        },
    ];
    let result = live_records(records);
    assert_eq!(result.len(), 3);
    assert!(matches!(&result[0], Record::Checkpoint { gen_id, .. } if *gen_id == 1));
    assert!(matches!(&result[1], Record::Added { path, .. } if path == "/d"));
    assert!(matches!(&result[2], Record::Checkpoint { gen_id, .. } if *gen_id == 5));
}

#[test]
fn liveness_reachable_undo_restore() {
    // K1 [A] K2 [B] K3 S4(K1) [D] K5 S6(K3)
    let records = vec![
        Record::Checkpoint {
            gen_id: 1,
            name: "init".into(),
        },
        Record::Added {
            path: "/a".into(),
            dtype: Some(DType::File),
            ino: 1,
        },
        Record::Checkpoint {
            gen_id: 2,
            name: "c2".into(),
        },
        Record::Added {
            path: "/b".into(),
            dtype: Some(DType::File),
            ino: 2,
        },
        Record::Checkpoint {
            gen_id: 3,
            name: "c3".into(),
        },
        Record::Restore {
            gen_id: 4,
            target_gen: 1,
        },
        Record::Added {
            path: "/d".into(),
            dtype: Some(DType::File),
            ino: 3,
        },
        Record::Checkpoint {
            gen_id: 5,
            name: "c5".into(),
        },
        Record::Restore {
            gen_id: 6,
            target_gen: 3,
        },
    ];
    let result = live_records(records);
    assert_eq!(result.len(), 5);
    assert!(matches!(&result[0], Record::Checkpoint { gen_id, .. } if *gen_id == 1));
    assert!(matches!(&result[1], Record::Added { path, .. } if path == "/a"));
    assert!(matches!(&result[2], Record::Checkpoint { gen_id, .. } if *gen_id == 2));
    assert!(matches!(&result[3], Record::Added { path, .. } if path == "/b"));
    assert!(matches!(&result[4], Record::Checkpoint { gen_id, .. } if *gen_id == 3));
}

/// Restore to the first checkpoint discards everything after it.
#[test]
fn liveness_reachable_restore_to_first_checkpoint() {
    let records = vec![
        Record::Checkpoint {
            gen_id: 1,
            name: "c1".into(),
        },
        Record::Added {
            path: "/a".into(),
            dtype: Some(DType::File),
            ino: 1,
        },
        Record::Checkpoint {
            gen_id: 2,
            name: "c2".into(),
        },
        Record::Restore {
            gen_id: 3,
            target_gen: 1,
        },
    ];
    let result = live_records(records);
    assert_eq!(result.len(), 1);
    assert!(matches!(&result[0], Record::Checkpoint { gen_id, .. } if *gen_id == 1));
}

#[test]
fn liveness_reachable_corrupt_s_record_skipped() {
    let records = vec![
        Record::Checkpoint {
            gen_id: 1,
            name: "init".into(),
        },
        Record::Added {
            path: "/a".into(),
            dtype: Some(DType::File),
            ino: 1,
        },
        Record::Checkpoint {
            gen_id: 2,
            name: "c2".into(),
        },
        Record::Restore {
            gen_id: 3,
            target_gen: 99,
        },
        Record::Added {
            path: "/b".into(),
            dtype: Some(DType::File),
            ino: 2,
        },
    ];
    let result = live_records(records);
    assert_eq!(result.len(), 5);
}

#[test]
fn liveness_reachable_empty_journal() {
    assert!(live_records(vec![]).is_empty());
}

#[test]
fn liveness_reachable_consecutive_s_records() {
    let records = vec![
        Record::Checkpoint {
            gen_id: 1,
            name: "init".into(),
        },
        Record::Added {
            path: "/a".into(),
            dtype: Some(DType::File),
            ino: 1,
        },
        Record::Checkpoint {
            gen_id: 2,
            name: "c2".into(),
        },
        Record::Added {
            path: "/b".into(),
            dtype: Some(DType::File),
            ino: 2,
        },
        Record::Checkpoint {
            gen_id: 3,
            name: "c3".into(),
        },
        Record::Restore {
            gen_id: 4,
            target_gen: 2,
        },
        Record::Restore {
            gen_id: 5,
            target_gen: 1,
        },
    ];
    let result = live_records(records);
    assert_eq!(result.len(), 1);
    assert!(matches!(&result[0], Record::Checkpoint { gen_id, .. } if *gen_id == 1));
}

// ── Slice tests ──────────────────────────────────────────────────

#[test]
fn live_slice_at() {
    let records = vec![
        Record::Checkpoint {
            gen_id: 1,
            name: "init".into(),
        },
        Record::Added {
            path: "/a".into(),
            dtype: Some(DType::File),
            ino: 1,
        },
        Record::Checkpoint {
            gen_id: 2,
            name: "c2".into(),
        },
        Record::Added {
            path: "/b".into(),
            dtype: Some(DType::File),
            ino: 2,
        },
        Record::Checkpoint {
            gen_id: 3,
            name: "c3".into(),
        },
    ];
    let sj = SegmentedJournal::new(RawJournal(records));
    let pairs = sj.live_slice(Some("c3"), None, None).unwrap();
    assert_eq!(pairs.len(), 1);
    assert_eq!(pairs[0].0.from, 2);
    assert_eq!(pairs[0].0.records.len(), 1);
    assert!(matches!(&pairs[0].0.records[0], Record::Added { path, .. } if path == "/b"));
    assert_eq!(pairs[0].1.as_ref().unwrap().0, 3);
}

#[test]
fn live_slice_from_to() {
    let records = vec![
        Record::Checkpoint {
            gen_id: 1,
            name: "init".into(),
        },
        Record::Added {
            path: "/a".into(),
            dtype: Some(DType::File),
            ino: 1,
        },
        Record::Checkpoint {
            gen_id: 2,
            name: "c2".into(),
        },
        Record::Added {
            path: "/b".into(),
            dtype: Some(DType::File),
            ino: 2,
        },
        Record::Checkpoint {
            gen_id: 3,
            name: "c3".into(),
        },
        Record::Added {
            path: "/c".into(),
            dtype: Some(DType::File),
            ino: 3,
        },
        Record::Checkpoint {
            gen_id: 4,
            name: "c4".into(),
        },
    ];
    let sj = SegmentedJournal::new(RawJournal(records));
    let pairs = sj.live_slice(None, Some("c2"), Some("c3")).unwrap();
    assert_eq!(pairs.len(), 1);
    assert_eq!(pairs[0].0.from, 2);
    assert!(matches!(&pairs[0].0.records[0], Record::Added { path, .. } if path == "/b"));
}

#[test]
fn live_slice_not_found() {
    let records = vec![Record::Checkpoint {
        gen_id: 1,
        name: "init".into(),
    }];
    let sj = SegmentedJournal::new(RawJournal(records));
    assert!(sj.live_slice(Some("nonexistent"), None, None).is_err());
}

#[test]
fn live_prefix_not_found() {
    let records = vec![Record::Checkpoint {
        gen_id: 1,
        name: "init".into(),
    }];
    let sj = SegmentedJournal::new(RawJournal(records));
    assert!(sj.live_prefix("nonexistent").is_err());
}

// ── Live prefix test (for restore) ───────────────────────────────

#[test]
fn live_prefix_basic() {
    // K1 [A] K2 [B] K3 S4(K1) [D] K5
    let records = vec![
        Record::Checkpoint {
            gen_id: 1,
            name: "init".into(),
        },
        Record::Added {
            path: "/a".into(),
            dtype: Some(DType::File),
            ino: 1,
        },
        Record::Checkpoint {
            gen_id: 2,
            name: "c2".into(),
        },
        Record::Added {
            path: "/b".into(),
            dtype: Some(DType::File),
            ino: 2,
        },
        Record::Checkpoint {
            gen_id: 3,
            name: "c3".into(),
        },
        Record::Restore {
            gen_id: 4,
            target_gen: 1,
        },
        Record::Added {
            path: "/d".into(),
            dtype: Some(DType::File),
            ino: 3,
        },
        Record::Checkpoint {
            gen_id: 5,
            name: "c5".into(),
        },
    ];
    let sj = SegmentedJournal::new(RawJournal(records));
    let prefix = sj.live_prefix("c2").unwrap();
    let records: Vec<Record> = prefix
        .0
        .into_iter()
        .flat_map(|s| {
            let mut r = Vec::new();
            if s.from > 0 {
                r.push(Record::Checkpoint {
                    gen_id: s.from,
                    name: String::new(),
                });
            }
            r.extend(s.records);
            r
        })
        .collect();
    // K1, [A] — the live prefix up to K2
    assert_eq!(records.len(), 2);
    assert!(matches!(&records[0], Record::Checkpoint { gen_id, .. } if *gen_id == 1));
    assert!(matches!(&records[1], Record::Added { path, .. } if path == "/a"));
}

#[test]
fn liveness_alive_segments_range_ignores_restore_outside_range() {
    // K1 [A] K2 [B] K3 S4(K1)
    // alive_segments_range(0..2) should only see K1 and K2, ignore S4.
    let records = vec![
        Record::Checkpoint {
            gen_id: 1,
            name: "init".into(),
        },
        Record::Added {
            path: "/a".into(),
            dtype: Some(DType::File),
            ino: 1,
        },
        Record::Checkpoint {
            gen_id: 2,
            name: "c2".into(),
        },
        Record::Added {
            path: "/b".into(),
            dtype: Some(DType::File),
            ino: 2,
        },
        Record::Checkpoint {
            gen_id: 3,
            name: "c3".into(),
        },
        Record::Restore {
            gen_id: 4,
            target_gen: 1,
        },
    ];
    let sj = SegmentedJournal::new(RawJournal(records));
    // Markers: K1(0), K2(1), K3(2), S4(3). Segments: 5 total.
    // Range 0..2 means only K1 and K2 markers considered.
    let alive = sj.markers.alive_segments_range(0..2, 2);
    assert!(alive[0], "seg0 should be alive (S4 outside range)");
    assert!(alive[1], "seg1 should be alive (S4 outside range)");
}

#[test]
fn live_prefix_with_nested_restores() {
    // K1 [A] K2 [B] K3 S4(K1) [C] K5 [D] K6
    // live_prefix up to K5 marker:
    //   prefix markers: K1, K2, K3, S4. S4(K1) kills K2,K3,S4 segments.
    //   live: seg(K1,[A]) + seg(K1*,[C])
    let records = vec![
        Record::Checkpoint {
            gen_id: 1,
            name: "init".into(),
        },
        Record::Added {
            path: "/a".into(),
            dtype: Some(DType::File),
            ino: 1,
        },
        Record::Checkpoint {
            gen_id: 2,
            name: "c2".into(),
        },
        Record::Added {
            path: "/b".into(),
            dtype: Some(DType::File),
            ino: 2,
        },
        Record::Checkpoint {
            gen_id: 3,
            name: "c3".into(),
        },
        Record::Restore {
            gen_id: 4,
            target_gen: 1,
        },
        Record::Added {
            path: "/c".into(),
            dtype: Some(DType::File),
            ino: 3,
        },
        Record::Checkpoint {
            gen_id: 5,
            name: "c5".into(),
        },
        Record::Added {
            path: "/d".into(),
            dtype: Some(DType::File),
            ino: 4,
        },
        Record::Checkpoint {
            gen_id: 6,
            name: "c6".into(),
        },
    ];
    let sj = SegmentedJournal::new(RawJournal(records));
    // Markers: K1(0), K2(1), K3(2), S4(3), K5(4), K6(5)
    let result: Vec<Record> = sj.live_prefix("c5").unwrap().into_records();
    // Live prefix up to K5: [C] from seg4.
    // [A] is dead (killed by S4, which kills segs after K1 marker). [D] is beyond K5.
    assert_eq!(result.len(), 1);
    assert!(matches!(&result[0], Record::Added { path, .. } if path == "/c"));
}

#[test]
fn liveness_corrupt_s_record_skipped_in_alive() {
    // K1 [A] S2(K99) [B]
    // S targets nonexistent K99 — should be skipped, all segments alive.
    let records = vec![
        Record::Checkpoint {
            gen_id: 1,
            name: "init".into(),
        },
        Record::Added {
            path: "/a".into(),
            dtype: Some(DType::File),
            ino: 1,
        },
        Record::Restore {
            gen_id: 2,
            target_gen: 99,
        },
        Record::Added {
            path: "/b".into(),
            dtype: Some(DType::File),
            ino: 2,
        },
    ];
    let sj = SegmentedJournal::new(RawJournal(records));
    let alive = sj.markers.alive_segments(sj.segments.len());
    assert!(
        alive.iter().all(|&a| a),
        "all segments alive when S target is missing"
    );
}
