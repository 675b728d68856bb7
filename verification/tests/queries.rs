//! Reports, listings and plans over journals.
use agfs::commit::{committed_message, Step};
use agfs::diff::{print_unified_diff, show_change, strip_styles, Shown, Span, Style};
use agfs::dtype::DType;
use agfs::entry_log;
use agfs::error::Error;
use agfs::overlay;
use agfs::overlay::types::{Action, Marker};
use agfs::record_log;
use agfs::record_log::types::{Checkpoint, Record};
use agfs::replay;
use agfs::report::{Item, Report};
use agfs::snapshots;

fn shown(items: &[Item]) -> Vec<String> {
    items
        .iter()
        .map(|i| match i {
            Item::Change(p, Shown::Added(n)) => format!("A {p} {n}"),
            Item::Change(p, Shown::Modified(n)) => format!("M {p} {n}"),
            Item::Change(p, Shown::Deleted) => format!("D {p}"),
            Item::Change(p, Shown::Renamed(f)) => format!("R {f} {p}"),
            Item::Unsaved => "unsaved".into(),
            Item::Footer(g, n) => format!("[{g}] {n}"),
            Item::NoChanges(l) => format!("none{l}"),
            Item::Total(n) => format!("{n} in all"),
        })
        .collect()
}

fn oadd(p: &str, ino: u32) -> overlay::types::Record {
    overlay::types::Record::Action(Action::Add { path: p.into(), dtype: Some(8), ino })
}

fn ochk(gen_id: u64, name: &str) -> overlay::types::Record {
    overlay::types::Record::Marker(Marker::Checkpoint { gen_id, name: name.into() })
}

fn orst(gen_id: u64, target_gen: u64) -> overlay::types::Record {
    overlay::types::Record::Marker(Marker::Restore { gen_id, target_gen })
}

/// [/a] K1 [/b] K2 [/c] S3(1) [/d]
fn overlay_journal() -> overlay::journal::Journal {
    overlay::journal::Journal::new(vec![
        oadd("/a", 1),
        ochk(1, "one"),
        oadd("/b", 2),
        ochk(2, "two"),
        oadd("/c", 3),
        orst(3, 1),
        oadd("/d", 4),
    ])
}

fn sorted(report: Report) -> Vec<String> {
    shown(&report.items)
}

#[test]
fn overlay_status_shows_live_segments() {
    let r = overlay::report::run_status(overlay_journal(), None, None, None).unwrap();
    assert!(r.has_changes);
    assert_eq!(sorted(r), vec!["A /a 1", "[1] one", "A /d 4", "2 in all"]);
}

#[test]
fn overlay_diff_of_a_path_leaves_other_segments_out() {
    let r = overlay::report::run_diff(overlay_journal(), None, None, None, Some("/d")).unwrap();
    assert_eq!(sorted(r), vec!["A /d 4"]);
    let r = overlay::report::run_diff(overlay_journal(), None, None, None, Some("/no")).unwrap();
    assert!(!r.has_changes);
    assert_eq!(sorted(r), vec!["none staged"]);
}

#[test]
fn overlay_report_on_an_unknown_marker() {
    let r = overlay::report::run_status(overlay_journal(), Some("nope"), None, None);
    assert!(matches!(r, Err(Error::MarkerNotFound(n)) if n == "nope"));
    let r = overlay::report::run_status(overlay_journal(), None, Some("2"), Some("1"));
    assert!(matches!(r, Err(Error::FromAfterTo)));
}

#[test]
fn overlay_audit_lists_everything() {
    let lines = overlay::audit::audit(&overlay_journal(), None).unwrap();
    let text: Vec<(String, bool)> =
        lines.iter().map(|l| (strip_styles(&l.spans), l.reachable)).collect();
    let want = [
        ("added      /a  (ino 1)", true),
        ("[1] one", true),
        ("added      /b  (ino 2)", false),
        ("[2] two", false),
        ("added      /c  (ino 3)", false),
        ("[3] restored to [1]", false),
        ("added      /d  (ino 4)", true),
    ];
    assert_eq!(text.len(), want.len());
    for (got, want) in text.iter().zip(want) {
        assert_eq!((got.0.as_str(), got.1), want);
    }
}

#[test]
fn overlay_audit_of_a_path_and_of_nothing() {
    let lines = overlay::audit::audit(&overlay_journal(), Some("/c")).unwrap();
    assert_eq!(lines.len(), 4);
    let empty = overlay::journal::Journal::new(vec![]);
    assert!(overlay::audit::audit(&empty, None).is_none());
}

#[test]
fn overlay_commit_carries_out_live_actions() {
    let steps = overlay::commit::plan_commit(overlay_journal());
    assert_eq!(steps.len(), 2);
    assert!(matches!(&steps[0], Step::Place { path, ino: 1 } if path == "/a"));
    assert!(matches!(&steps[1], Step::Place { path, ino: 4 } if path == "/d"));
    let moved = overlay::commit::plan_step(Action::Replace {
        src: "/a".into(),
        dst: "/b".into(),
        dtype: None,
    });
    assert!(matches!(moved, Step::Move { if_present: false, .. }));
}

#[test]
fn overlay_restore_finds_dead_markers() {
    let plan = overlay::restore::plan_restore(overlay_journal(), "two").unwrap();
    assert_eq!(plan.target_gen, 2);
    assert_eq!(plan.label, "checkpoint \"two\"");
    assert_eq!(plan.tree.len(), 2);
    assert!(plan.tree.get("/b").is_some() && plan.tree.get("/d").is_none());
    let plan = overlay::restore::plan_restore(overlay_journal(), "3").unwrap();
    assert_eq!(plan.label, "restore [3] (restored to [1])");
    assert_eq!(plan.tree.len(), 1);
    let none = overlay::restore::plan_restore(overlay_journal(), "9");
    assert!(matches!(none, Err(Error::MarkerNotFound(n)) if n == "9"));
    assert_eq!(
        overlay::restore::restored_message(&plan.label, 1),
        "Restored to restore [3] (restored to [1]) (1 staged change)."
    );
}

#[test]
fn restoring_gives_the_tree_back() {
    let before = overlay_journal().into_tree_at(2);
    let mut records = vec![
        oadd("/a", 1),
        ochk(1, "one"),
        oadd("/b", 2),
        ochk(2, "two"),
        oadd("/c", 3),
        orst(3, 1),
        oadd("/d", 4),
    ];
    records.push(orst(4, 2));
    let after = overlay::journal::Journal::new(records).into_tree();
    assert_eq!(after.serialize(), before.serialize());
}

#[test]
fn restores_that_go_forward_are_told() {
    assert!(overlay::journal::Journal::try_new(vec![orst(1, 1)]).is_none());
    assert!(overlay::journal::Journal::try_new(vec![ochk(1, "one"), orst(2, 0)]).is_some());
}

fn chk(gen_id: u64, name: &str) -> Record {
    Record::Checkpoint(Checkpoint { gen_id, name: name.into() })
}

fn added(p: &str, ino: u64) -> Record {
    Record::Added { path: p.into(), dtype: Some(DType::File), ino }
}

fn log() -> Vec<Record> {
    vec![
        chk(1, "one"),
        added("/a", 1),
        chk(2, "two"),
        added("/b", 2),
        Record::Restore { gen_id: 3, target_gen: 2 },
        added("/c", 3),
    ]
}

#[test]
fn log_status_marks_unsaved_changes() {
    let r = record_log::report::run_status(log(), None, None, None).unwrap();
    assert_eq!(sorted(r), vec!["A /a 1", "[2] two", "unsaved", "A /c 3", "2 in all"]);
}

#[test]
fn log_diff_of_a_path_and_of_nothing() {
    let r = record_log::report::run_diff(log(), None, None, None, Some("/c")).unwrap();
    assert_eq!(sorted(r), vec!["unsaved", "A /c 3"]);
    let r = record_log::report::run_diff(log(), None, None, None, Some("/b")).unwrap();
    assert_eq!(sorted(r), vec!["none staged"]);
    let r = record_log::report::run_status(log(), None, Some("zero"), None);
    assert!(matches!(r, Err(Error::CheckpointNotFound(n)) if n == "zero"));
}

#[test]
fn log_commit_carries_out_changes() {
    let steps = record_log::commit::plan_commit(log()).unwrap();
    assert_eq!(steps.len(), 2);
    assert!(matches!(&steps[0], Step::Place { path, ino: 1 } if path == "/a"));
    let steps = record_log::commit::plan_commit(vec![
        Record::Deleted { path: "/x".into() },
        Record::Redirect { path: "/y".into(), dtype: None, base: "/x".into() },
    ])
    .unwrap();
    assert_eq!(steps.len(), 1);
    assert!(matches!(&steps[0], Step::Move { from, to, if_present: true }
        if from == "/x" && to == "/y"));
    assert_eq!(committed_message(1), "Committed 1 change.");
    assert_eq!(committed_message(2), "Committed 2 changes.");
}

#[test]
fn log_restore_goes_by_the_records_up_to_the_checkpoint() {
    let journal = record_log::parse::Journal { records: log() };
    let plan = record_log::restore::plan_restore(journal, "two").unwrap();
    assert_eq!((plan.target_gen, plan.label.as_str()), (2, "two"));
    assert_eq!(plan.items.len(), 1);
    assert_eq!(plan.items[0].path, "/a");
    let journal = record_log::parse::Journal { records: log() };
    assert!(record_log::restore::plan_restore(journal, "three").is_err());
}

#[test]
fn checkpoints_are_listed_with_restores() {
    let lines = record_log::checkpoints::list(&log());
    let text: Vec<String> = lines.iter().map(|l| strip_styles(&l.spans)).collect();
    assert_eq!(
        text,
        vec!["checkpoint [1] one", "checkpoint [2] two", "restore    [3] restored to [2] two"]
    );
    let lines = record_log::checkpoints::list(&vec![Record::Restore { gen_id: 1, target_gen: 7 }]);
    assert_eq!(strip_styles(&lines[0].spans), "restore    [1] restored to [7] (unknown)");
}

#[test]
fn timeline_tells_what_is_reachable() {
    let lines = replay::timeline::timeline(vec![
        replay::types::Record::Checkpoint { gen_id: 1, name: "one".into() },
        replay::types::Record::Checkpoint { gen_id: 2, name: "two".into() },
        replay::types::Record::Restore { gen_id: 3, target_gen: 1 },
    ]);
    let text: Vec<(String, bool)> =
        lines.iter().map(|l| (strip_styles(&l.spans), l.reachable)).collect();
    assert_eq!(text[0], ("checkpoint [1] one".to_string(), true));
    assert_eq!(text[1], ("checkpoint [2] two".to_string(), false));
    assert_eq!(text[2], ("restore    [3] restored to [1] one".to_string(), false));
}

#[test]
fn snapshots_count_the_entries_between() {
    let journal = entry_log::parse(
        b"E\0\0a\01\0f\0\nE\0\0b\02\0f\0\nK\01\0first\nK\02\0second\nE\0\0c\00\0\0\n",
    );
    let s = snapshots::list(&journal.records);
    let counts: Vec<usize> = s.list.iter().map(|x| x.changes).collect();
    assert_eq!(counts, vec![2, 0]);
    assert_eq!(s.trailing, 1);
    assert_eq!(strip_styles(&snapshots::snapshot_line(&s.list[0])), "snapshot [1] first (2 changes)");
    assert_eq!(
        strip_styles(&snapshots::trailing_line(1).unwrap()),
        "(current) (1 uncommitted change since last snapshot)"
    );
    assert!(snapshots::trailing_line(0).is_none());
}

fn plain(spans: &Vec<Span>) -> String {
    strip_styles(spans)
}

#[test]
fn unified_diffs_mark_lines() {
    let d = print_unified_diff("a\nb\nc\n", "a\nx\nc\n");
    assert_eq!(plain(&d), " a\n-b\n+x\n c\n");
    assert_eq!(d[1].style, Style::Red);
    assert_eq!(d[2].style, Style::Green);
    assert!(print_unified_diff("same\n", "same\n").is_empty());
}

#[test]
fn unified_diffs_show_three_lines_around_a_change() {
    let old: String = (0..20).map(|i| format!("{i}\n")).collect();
    let new = old.replace("10\n", "ten\n");
    assert_eq!(plain(&print_unified_diff(&old, &new)), " 7\n 8\n 9\n-10\n+ten\n 11\n 12\n 13\n");
}

#[test]
fn unified_diffs_end_lines_that_have_no_end() {
    assert_eq!(plain(&print_unified_diff("", "x")), "+x\n");
}

#[test]
fn changes_are_shown_with_their_contents() {
    let show = |s: &Shown, old: &str, new: &str, v: bool| plain(&show_change("/f", s, old, new, v));
    assert_eq!(show(&Shown::Added(1), "", "x\n", false), "/f (added)\n");
    assert_eq!(show(&Shown::Added(1), "", "x\n", true), "/f (added)\n+x\n");
    assert_eq!(show(&Shown::Modified(1), "x\n", "x\n", false), "/f (modified)\n");
    assert_eq!(show(&Shown::Modified(1), "x\n", "x\n", true), "");
    assert_eq!(show(&Shown::Modified(1), "x\n", "y\n", true), "/f (modified)\n-x\n+y\n");
    assert_eq!(show(&Shown::Deleted, "x\n", "", true), "/f (deleted)\n-x\n");
    assert_eq!(show(&Shown::Renamed("/e".into()), "x\n", "y\n", true), "/e → /f (renamed)\n");
}
