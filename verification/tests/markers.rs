//! Markers of the overlay: looking them up, and which segments survive.
use agfs::overlay::journal::Journal;
use agfs::overlay::types::{Action, Marker, Record};

// ── Marker lookup tests ───────────────

#[test]
fn find_marker_by_gen_id() {
    let records = vec![
        Record::Marker(Marker::Checkpoint {
            gen_id: 1,
            name: "first".into(),
        }),
        Record::Action(Action::Add {
            path: "/a".into(),
            dtype: Some(libc::DT_REG),
            ino: 1,
        }),
        Record::Marker(Marker::Checkpoint {
            gen_id: 2,
            name: "second".into(),
        }),
    ];
    let j = Journal::new(records);
    let gen_id = j.markers.find_marker_by_gen_id(1).unwrap();
    assert_eq!(gen_id, 1);
}

#[test]
fn markers_find_checkpoint_by_name() {
    let records = vec![
        Record::Marker(Marker::Checkpoint {
            gen_id: 1,
            name: "first".into(),
        }),
        Record::Action(Action::Add {
            path: "/a".into(),
            dtype: Some(libc::DT_REG),
            ino: 1,
        }),
        Record::Marker(Marker::Checkpoint {
            gen_id: 2,
            name: "second".into(),
        }),
    ];
    let j = Journal::new(records);
    let gen_id = j.markers.find_checkpoint_by_name("second").unwrap();
    assert_eq!(gen_id, 2);
}

#[test]
fn markers_find_checkpoint_not_found() {
    let records = vec![Record::Marker(Marker::Checkpoint {
        gen_id: 1,
        name: "first".into(),
    })];
    let j = Journal::new(records);
    assert!(j.markers.find_checkpoint_by_name("nonexistent").is_err());
}

#[test]
fn markers_find_checkpoint_duplicate_names_returns_last() {
    let records = vec![
        Record::Marker(Marker::Checkpoint {
            gen_id: 1,
            name: "dup".into(),
        }),
        Record::Action(Action::Add {
            path: "/a".into(),
            dtype: Some(libc::DT_REG),
            ino: 1,
        }),
        Record::Marker(Marker::Checkpoint {
            gen_id: 2,
            name: "dup".into(),
        }),
    ];
    let j = Journal::new(records);
    let gen_id = j.markers.find_checkpoint_by_name("dup").unwrap();
    assert_eq!(gen_id, 2, "should return the last matching checkpoint");
}

#[test]
fn marker_at_on_restore_marker() {
    let records = vec![
        Record::Marker(Marker::Checkpoint {
            gen_id: 1,
            name: "init".into(),
        }),
        Record::Action(Action::Add {
            path: "/a".into(),
            dtype: Some(libc::DT_REG),
            ino: 1,
        }),
        Record::Marker(Marker::Checkpoint {
            gen_id: 2,
            name: "c2".into(),
        }),
        Record::Marker(Marker::Restore {
            gen_id: 3,
            target_gen: 1,
        }),
    ];
    let j = Journal::new(records);
    assert!(
        j.markers.marker_at(0).is_none(),
        "Phantom marker should return None"
    );
    assert!(j.markers.marker_at(1).is_some());
    assert!(j.markers.marker_at(2).is_some());
    assert!(
        j.markers.marker_at(3).is_some(),
        "Restore marker should be returned by marker_at"
    );
}

#[test]
fn find_marker_by_gen_id_rejects_phantom() {
    let records = vec![Record::Marker(Marker::Checkpoint {
        gen_id: 1,
        name: "c1".into(),
    })];
    let j = Journal::new(records);
    assert!(
        j.markers.find_marker_by_gen_id(0).is_err(),
        "phantom gen_id=0 should not be a valid marker"
    );
    assert!(j.markers.find_marker_by_gen_id(1).is_ok());
}

#[test]
fn restore_targeting_phantom() {
    // Restore to gen_id=0 (initial state) should kill all segments
    // between the phantom and the restore marker.
    let records = vec![
        Record::Marker(Marker::Checkpoint {
            gen_id: 1,
            name: "c1".into(),
        }),
        Record::Action(Action::Add {
            path: "/a".into(),
            dtype: Some(libc::DT_REG),
            ino: 1,
        }),
        Record::Marker(Marker::Checkpoint {
            gen_id: 2,
            name: "c2".into(),
        }),
        Record::Action(Action::Add {
            path: "/b".into(),
            dtype: Some(libc::DT_REG),
            ino: 2,
        }),
        Record::Marker(Marker::Restore {
            gen_id: 3,
            target_gen: 0,
        }),
    ];
    let j = Journal::new(records);
    // markers: [phantom(0), K(1), K(2), R(3→0)]
    // segments: [seg0, seg1, seg2, seg3]
    // Restore to 0 kills segments 0..3 → seg0, seg1, seg2 dead.
    let alive = j.markers.alive_segments(j.segments.len());
    assert!(!alive[0], "seg0 killed by restore to initial");
    assert!(!alive[1], "seg1 killed by restore to initial");
    assert!(!alive[2], "seg2 killed by restore to initial");
    assert!(alive[3], "seg3 (trailing after restore) alive");
}

#[test]
fn segment_range_at_rejects_phantom_id() {
    let records = vec![Record::Marker(Marker::Checkpoint {
        gen_id: 1,
        name: "c1".into(),
    })];
    let j = Journal::new(records);
    assert!(
        j.markers
            .segment_range(Some("0"), None, None, j.segments.len())
            .is_err(),
        "--at 0 should be rejected (phantom)"
    );
}

#[test]
fn markers_segment_range_from_after_to_is_error() {
    let records = vec![
        Record::Marker(Marker::Checkpoint {
            gen_id: 1,
            name: "c1".into(),
        }),
        Record::Action(Action::Add {
            path: "/a".into(),
            dtype: Some(libc::DT_REG),
            ino: 1,
        }),
        Record::Marker(Marker::Checkpoint {
            gen_id: 2,
            name: "c2".into(),
        }),
        Record::Action(Action::Add {
            path: "/b".into(),
            dtype: Some(libc::DT_REG),
            ino: 2,
        }),
        Record::Marker(Marker::Checkpoint {
            gen_id: 3,
            name: "c3".into(),
        }),
    ];
    let j = Journal::new(records);
    let result = j
        .markers
        .segment_range(None, Some("c3"), Some("c1"), j.segments.len());
    assert!(result.is_err(), "from > to should be an error");
}

#[test]
fn markers_segment_range_at_first_checkpoint() {
    let records = vec![
        Record::Marker(Marker::Checkpoint {
            gen_id: 1,
            name: "c1".into(),
        }),
        Record::Action(Action::Add {
            path: "/a".into(),
            dtype: Some(libc::DT_REG),
            ino: 1,
        }),
        Record::Marker(Marker::Checkpoint {
            gen_id: 2,
            name: "c2".into(),
        }),
    ];
    let j = Journal::new(records);
    let (start, end) = j
        .markers
        .segment_range(Some("c1"), None, None, j.segments.len())
        .unwrap();
    assert_eq!(start, 0);
    assert_eq!(end, 1);
}

#[test]
fn markers_segment_range_at_middle_checkpoint() {
    let records = vec![
        Record::Marker(Marker::Checkpoint {
            gen_id: 1,
            name: "c1".into(),
        }),
        Record::Action(Action::Add {
            path: "/a".into(),
            dtype: Some(libc::DT_REG),
            ino: 1,
        }),
        Record::Marker(Marker::Checkpoint {
            gen_id: 2,
            name: "c2".into(),
        }),
        Record::Action(Action::Add {
            path: "/b".into(),
            dtype: Some(libc::DT_REG),
            ino: 2,
        }),
        Record::Marker(Marker::Checkpoint {
            gen_id: 3,
            name: "c3".into(),
        }),
    ];
    let j = Journal::new(records);
    // --at c2: prev K is marker 0 (K1), so start=1, end=2
    let (start, end) = j
        .markers
        .segment_range(Some("c2"), None, None, j.segments.len())
        .unwrap();
    assert_eq!(start, 1);
    assert_eq!(end, 2);
}

#[test]
fn markers_segment_range_at_checkpoint_after_restore() {
    // K1 [A] K2 [B] K3 S4(K2) [D] K5
    let records = vec![
        Record::Marker(Marker::Checkpoint {
            gen_id: 1,
            name: "c1".into(),
        }),
        Record::Action(Action::Add {
            path: "/a".into(),
            dtype: Some(libc::DT_REG),
            ino: 1,
        }),
        Record::Marker(Marker::Checkpoint {
            gen_id: 2,
            name: "c2".into(),
        }),
        Record::Action(Action::Add {
            path: "/b".into(),
            dtype: Some(libc::DT_REG),
            ino: 2,
        }),
        Record::Marker(Marker::Checkpoint {
            gen_id: 3,
            name: "c3".into(),
        }),
        Record::Marker(Marker::Restore {
            gen_id: 4,
            target_gen: 2,
        }),
        Record::Action(Action::Add {
            path: "/d".into(),
            dtype: Some(libc::DT_REG),
            ino: 3,
        }),
        Record::Marker(Marker::Checkpoint {
            gen_id: 5,
            name: "c5".into(),
        }),
    ];
    let j = Journal::new(records);
    // --at c5: prev K is marker[2] (K3), so start=3, end=5
    let (start, end) = j
        .markers
        .segment_range(Some("c5"), None, None, j.segments.len())
        .unwrap();
    assert_eq!(start, 3);
    assert_eq!(end, 5);
}

// ── Alive computation tests ──────────

#[test]
fn markers_segment_alive_with_restore() {
    let records = vec![
        Record::Marker(Marker::Checkpoint {
            gen_id: 1,
            name: "init".into(),
        }),
        Record::Action(Action::Add {
            path: "/a".into(),
            dtype: Some(libc::DT_REG),
            ino: 1,
        }),
        Record::Marker(Marker::Checkpoint {
            gen_id: 2,
            name: "c2".into(),
        }),
        Record::Action(Action::Add {
            path: "/b".into(),
            dtype: Some(libc::DT_REG),
            ino: 2,
        }),
        Record::Marker(Marker::Checkpoint {
            gen_id: 3,
            name: "c3".into(),
        }),
        Record::Marker(Marker::Restore {
            gen_id: 4,
            target_gen: 2,
        }),
        Record::Action(Action::Add {
            path: "/d".into(),
            dtype: Some(libc::DT_REG),
            ino: 3,
        }),
        Record::Marker(Marker::Checkpoint {
            gen_id: 5,
            name: "c5".into(),
        }),
    ];
    let j = Journal::new(records);
    let alive = j.markers.alive_segments(j.segments.len());
    assert!(alive[0]);
    assert!(alive[1]);
    assert!(!alive[2]);
    assert!(!alive[3]);
    assert!(alive[4]);
    assert!(alive[5]);
}

#[test]
fn markers_alive_segments_range_ignores_restore_outside_range() {
    let records = vec![
        Record::Marker(Marker::Checkpoint {
            gen_id: 1,
            name: "init".into(),
        }),
        Record::Action(Action::Add {
            path: "/a".into(),
            dtype: Some(libc::DT_REG),
            ino: 1,
        }),
        Record::Marker(Marker::Checkpoint {
            gen_id: 2,
            name: "c2".into(),
        }),
        Record::Action(Action::Add {
            path: "/b".into(),
            dtype: Some(libc::DT_REG),
            ino: 2,
        }),
        Record::Marker(Marker::Checkpoint {
            gen_id: 3,
            name: "c3".into(),
        }),
        Record::Marker(Marker::Restore {
            gen_id: 4,
            target_gen: 1,
        }),
    ];
    let j = Journal::new(records);
    let alive = j.markers.alive_segments_range(0..2, 2);
    assert!(alive[0], "seg0 should be alive (S4 outside range)");
    assert!(alive[1], "seg1 should be alive (S4 outside range)");
}

#[test]
fn markers_corrupt_s_record_skipped_in_alive() {
    let records = vec![
        Record::Marker(Marker::Checkpoint {
            gen_id: 1,
            name: "init".into(),
        }),
        Record::Action(Action::Add {
            path: "/a".into(),
            dtype: Some(libc::DT_REG),
            ino: 1,
        }),
        Record::Marker(Marker::Restore {
            gen_id: 2,
            target_gen: 99,
        }),
        Record::Action(Action::Add {
            path: "/b".into(),
            dtype: Some(libc::DT_REG),
            ino: 2,
        }),
    ];
    let j = Journal::new(records);
    let alive = j.markers.alive_segments(j.segments.len());
    assert!(
        alive.iter().all(|&a| a),
        "all segments alive when S target is missing"
    );
}

// ── Additional alive edge cases ──────

#[test]
fn alive_no_restores() {
    let records = vec![
        Record::Marker(Marker::Checkpoint {
            gen_id: 1,
            name: "init".into(),
        }),
        Record::Action(Action::Add {
            path: "/a".into(),
            dtype: Some(libc::DT_REG),
            ino: 1,
        }),
        Record::Marker(Marker::Checkpoint {
            gen_id: 2,
            name: "c2".into(),
        }),
    ];
    let j = Journal::new(records);
    let alive = j.markers.alive_segments(j.segments.len());
    assert!(alive.iter().all(|&a| a), "no restores means all alive");
}

#[test]
fn alive_empty_journal() {
    let j = Journal::new(vec![]);
    let alive = j.markers.alive_segments(j.segments.len());
    assert_eq!(alive.len(), 1);
    assert!(alive[0]);
}

#[test]
fn alive_multiple_restores_last_wins() {
    // K1 [A] K2 [B] K3 S4(K2) [D] K5 S6(K1)
    let records = vec![
        Record::Marker(Marker::Checkpoint {
            gen_id: 1,
            name: "init".into(),
        }),
        Record::Action(Action::Add {
            path: "/a".into(),
            dtype: Some(libc::DT_REG),
            ino: 1,
        }),
        Record::Marker(Marker::Checkpoint {
            gen_id: 2,
            name: "c2".into(),
        }),
        Record::Action(Action::Add {
            path: "/b".into(),
            dtype: Some(libc::DT_REG),
            ino: 2,
        }),
        Record::Marker(Marker::Checkpoint {
            gen_id: 3,
            name: "c3".into(),
        }),
        Record::Marker(Marker::Restore {
            gen_id: 4,
            target_gen: 2,
        }),
        Record::Action(Action::Add {
            path: "/d".into(),
            dtype: Some(libc::DT_REG),
            ino: 3,
        }),
        Record::Marker(Marker::Checkpoint {
            gen_id: 5,
            name: "c5".into(),
        }),
        Record::Marker(Marker::Restore {
            gen_id: 6,
            target_gen: 1,
        }),
    ];
    let j = Journal::new(records);
    let alive = j.markers.alive_segments(j.segments.len());
    assert!(alive[0], "seg0 alive (before K1)");
    assert!(!alive[1], "seg1 dead");
    assert!(!alive[2], "seg2 dead");
    assert!(!alive[3], "seg3 dead");
    assert!(!alive[4], "seg4 dead");
    assert!(!alive[5], "seg5 dead");
    assert!(alive[6], "seg6 alive (trailing, empty)");
}

#[test]
fn alive_consecutive_s_records() {
    // K1 [A] K2 [B] K3 S4(K2) S5(K1)
    let records = vec![
        Record::Marker(Marker::Checkpoint {
            gen_id: 1,
            name: "init".into(),
        }),
        Record::Action(Action::Add {
            path: "/a".into(),
            dtype: Some(libc::DT_REG),
            ino: 1,
        }),
        Record::Marker(Marker::Checkpoint {
            gen_id: 2,
            name: "c2".into(),
        }),
        Record::Action(Action::Add {
            path: "/b".into(),
            dtype: Some(libc::DT_REG),
            ino: 2,
        }),
        Record::Marker(Marker::Checkpoint {
            gen_id: 3,
            name: "c3".into(),
        }),
        Record::Marker(Marker::Restore {
            gen_id: 4,
            target_gen: 2,
        }),
        Record::Marker(Marker::Restore {
            gen_id: 5,
            target_gen: 1,
        }),
    ];
    let j = Journal::new(records);
    let alive = j.markers.alive_segments(j.segments.len());
    assert!(alive[0], "seg0 alive");
    assert!(!alive[1], "seg1 dead (after K1, killed by S5)");
}

#[test]
fn alive_restore_to_first_checkpoint() {
    // K1 [A] K2 S3(K1)
    let records = vec![
        Record::Marker(Marker::Checkpoint {
            gen_id: 1,
            name: "c1".into(),
        }),
        Record::Action(Action::Add {
            path: "/a".into(),
            dtype: Some(libc::DT_REG),
            ino: 1,
        }),
        Record::Marker(Marker::Checkpoint {
            gen_id: 2,
            name: "c2".into(),
        }),
        Record::Marker(Marker::Restore {
            gen_id: 3,
            target_gen: 1,
        }),
    ];
    let j = Journal::new(records);
    let alive = j.markers.alive_segments(j.segments.len());
    assert!(alive[0], "seg0 before K1 alive");
    assert!(!alive[1], "seg1 dead (after K1, before K2)");
    assert!(!alive[2], "seg2 dead");
    assert!(alive[3], "seg3 alive (trailing, empty)");
}

#[test]
fn alive_nested_s_in_dead_zone() {
    // K1 [A] K2 [B] K3 S4(K1) [D] K5 [E] K6 S7(K5)
    let records = vec![
        Record::Marker(Marker::Checkpoint {
            gen_id: 1,
            name: "init".into(),
        }),
        Record::Action(Action::Add {
            path: "/a".into(),
            dtype: Some(libc::DT_REG),
            ino: 1,
        }),
        Record::Marker(Marker::Checkpoint {
            gen_id: 2,
            name: "c2".into(),
        }),
        Record::Action(Action::Add {
            path: "/b".into(),
            dtype: Some(libc::DT_REG),
            ino: 2,
        }),
        Record::Marker(Marker::Checkpoint {
            gen_id: 3,
            name: "c3".into(),
        }),
        Record::Marker(Marker::Restore {
            gen_id: 4,
            target_gen: 1,
        }),
        Record::Action(Action::Add {
            path: "/d".into(),
            dtype: Some(libc::DT_REG),
            ino: 3,
        }),
        Record::Marker(Marker::Checkpoint {
            gen_id: 5,
            name: "c5".into(),
        }),
        Record::Action(Action::Add {
            path: "/e".into(),
            dtype: Some(libc::DT_REG),
            ino: 4,
        }),
        Record::Marker(Marker::Checkpoint {
            gen_id: 6,
            name: "c6".into(),
        }),
        Record::Marker(Marker::Restore {
            gen_id: 7,
            target_gen: 5,
        }),
    ];
    let j = Journal::new(records);
    let alive = j.markers.alive_segments(j.segments.len());
    assert!(alive[0], "seg0 alive");
    assert!(!alive[1], "seg1 dead (killed by S4)");
    assert!(!alive[2], "seg2 dead (killed by S4)");
    assert!(!alive[3], "seg3 dead (killed by S4)");
    assert!(alive[4], "seg4 alive (after S4, before K5)");
    assert!(!alive[5], "seg5 dead (killed by S7)");
    assert!(!alive[6], "seg6 dead (killed by S7)");
    assert!(alive[7], "seg7 alive (trailing, empty)");
}

#[test]
fn alive_undo_restore() {
    // K1 [A] K2 [B] K3 S4(K1) [D] K5 S6(K3)
    let records = vec![
        Record::Marker(Marker::Checkpoint {
            gen_id: 1,
            name: "init".into(),
        }),
        Record::Action(Action::Add {
            path: "/a".into(),
            dtype: Some(libc::DT_REG),
            ino: 1,
        }),
        Record::Marker(Marker::Checkpoint {
            gen_id: 2,
            name: "c2".into(),
        }),
        Record::Action(Action::Add {
            path: "/b".into(),
            dtype: Some(libc::DT_REG),
            ino: 2,
        }),
        Record::Marker(Marker::Checkpoint {
            gen_id: 3,
            name: "c3".into(),
        }),
        Record::Marker(Marker::Restore {
            gen_id: 4,
            target_gen: 1,
        }),
        Record::Action(Action::Add {
            path: "/d".into(),
            dtype: Some(libc::DT_REG),
            ino: 3,
        }),
        Record::Marker(Marker::Checkpoint {
            gen_id: 5,
            name: "c5".into(),
        }),
        Record::Marker(Marker::Restore {
            gen_id: 6,
            target_gen: 3,
        }),
    ];
    let j = Journal::new(records);
    let alive = j.markers.alive_segments(j.segments.len());
    assert!(alive[0], "seg0 alive");
    assert!(alive[1], "seg1 alive (restored by S6)");
    assert!(alive[2], "seg2 alive (restored by S6)");
    assert!(!alive[3], "seg3 dead (S4 segment)");
    assert!(!alive[4], "seg4 dead (killed by S6)");
    assert!(!alive[5], "seg5 dead (killed by S6)");
    assert!(alive[6], "seg6 alive (trailing, empty)");
}

// ── find_marker tests for restore markers ───────────────────────

#[test]
fn find_marker_accepts_restore_gen_id() {
    let records = vec![
        Record::Marker(Marker::Checkpoint {
            gen_id: 1,
            name: "c1".into(),
        }),
        Record::Action(Action::Add {
            path: "/a".into(),
            dtype: Some(libc::DT_REG),
            ino: 1,
        }),
        Record::Marker(Marker::Checkpoint {
            gen_id: 2,
            name: "c2".into(),
        }),
        Record::Marker(Marker::Restore {
            gen_id: 3,
            target_gen: 1,
        }),
    ];
    let j = Journal::new(records);
    assert_eq!(j.markers.find_marker("3").unwrap(), 3);
    assert_eq!(j.markers.find_marker("1").unwrap(), 1);
    assert_eq!(j.markers.find_marker("c1").unwrap(), 1);
    assert!(j.markers.find_marker("0").is_err());
}

#[test]
fn alive_restore_to_restore_marker() {
    // K1 [A] K2 R3(→K1) [D] K4 R5(→R3)
    // R5 targets R3, so dead zone is 3..5 (seg_3, seg_4).
    let records = vec![
        Record::Marker(Marker::Checkpoint {
            gen_id: 1,
            name: "c1".into(),
        }),
        Record::Action(Action::Add {
            path: "/a".into(),
            dtype: Some(libc::DT_REG),
            ino: 1,
        }),
        Record::Marker(Marker::Checkpoint {
            gen_id: 2,
            name: "c2".into(),
        }),
        Record::Marker(Marker::Restore {
            gen_id: 3,
            target_gen: 1,
        }),
        Record::Action(Action::Add {
            path: "/d".into(),
            dtype: Some(libc::DT_REG),
            ino: 3,
        }),
        Record::Marker(Marker::Checkpoint {
            gen_id: 4,
            name: "c4".into(),
        }),
        Record::Marker(Marker::Restore {
            gen_id: 5,
            target_gen: 3,
        }),
    ];
    let j = Journal::new(records);
    let alive = j.markers.alive_segments(j.segments.len());
    assert!(alive[0], "seg0 alive (before K1)");
    assert!(!alive[1], "seg1 dead (killed by R3)");
    assert!(!alive[2], "seg2 dead (killed by R3)");
    assert!(!alive[3], "seg3 dead (killed by R5)");
    assert!(!alive[4], "seg4 dead (killed by R5)");
    assert!(alive[5], "seg5 alive (trailing)");
}
