//! The laws of the library on concrete values.
use agfs::config::{add_rule, remove_rule, Config, Perm};
use agfs::dtype::DType;
use agfs::entry_log;
use agfs::error::Error;
use agfs::overlay::dentry;
use agfs::overlay::dstate::Dstate;
use agfs::overlay::markers::Markers;
use agfs::overlay::tree::{Dentry, DirTree, Target};
use agfs::overlay::types::{Action, Marker, Segment};
use agfs::pathmap::PathMap;
use agfs::record_log::parse::parse;
use agfs::record_log::resolve::{resolve, Change};
use agfs::record_log::restore::changes_to_items;
use agfs::record_log::timeline::{reachable, reachable_indices, Timeline};
use agfs::record_log::types::{Checkpoint, Record};
use agfs::replay;

fn build(records: Vec<Action>) -> DirTree {
    DirTree::build(vec![Segment { from: 0, records }])
}

fn add(path: &str, ino: u32) -> Action {
    Action::Add { path: path.into(), dtype: Some(libc::DT_REG), ino }
}

fn delete(path: &str) -> Action {
    Action::Delete { path: path.into(), dtype: Some(libc::DT_REG) }
}

fn rename(src: &str, dst: &str) -> Action {
    Action::Rename { src: src.into(), dst: dst.into(), dtype: Some(libc::DT_REG) }
}

fn shown(tree: &DirTree) -> Vec<(String, String)> {
    let mut v: Vec<(String, String)> =
        tree.for_each().into_iter().map(|(p, d)| (p, format!("{d:?}"))).collect();
    v.sort();
    v
}

#[test]
fn an_edit_takes_effect_and_leaves_the_rest() {
    let before = build(vec![add("/d/a", 1), add("/d/b", 2), add("/e/a", 3)]);
    let mut after = build(vec![add("/d/a", 1), add("/d/b", 2), add("/e/a", 3)]);
    after.apply(Action::Modify { path: "/d/b".into(), dtype: None, ino: 9 });
    assert!(matches!(after.get("/d/b"), Some(Dentry { target: Target::Inode(9), .. })));
    for p in ["/d/a", "/e/a"] {
        assert_eq!(format!("{:?}", after.get(p)), format!("{:?}", before.get(p)));
    }
}

#[test]
fn a_removal_leaves_the_rest() {
    let tree = build(vec![add("/d/a", 1), add("/d/b", 2), delete("/d/b")]);
    assert!(tree.get("/d/b").is_none());
    assert!(matches!(tree.get("/d/a"), Some(Dentry { target: Target::Inode(1), .. })));
}

#[test]
fn adding_and_deleting_stages_nothing() {
    let before = build(vec![add("/d/a", 1)]);
    let after = build(vec![add("/d/a", 1), add("/d/x", 2), delete("/d/x")]);
    assert_eq!(shown(&after), shown(&before));
}

#[test]
fn a_modified_path_that_is_deleted_is_negative() {
    let tree = build(vec![
        Action::Modify { path: "/a".into(), dtype: None, ino: 1 },
        delete("/a"),
    ]);
    assert!(matches!(tree.get("/a"), Some(Dentry { target: Target::Nothing, in_base: true })));
}

#[test]
fn renames_there_and_back_stage_nothing() {
    assert!(build(vec![rename("/a", "/b"), rename("/b", "/a")]).is_empty());
    assert!(build(vec![rename("/a", "/a")]).is_empty());
}

#[test]
fn trees_that_do_not_fit_are_told() {
    assert!(build(vec![add("/a", 1)]).fits());
    assert!(!build(vec![add("/a", 0)]).fits());
    let long = format!("/{}", "a".repeat(65536));
    assert!(!build(vec![add(&long, 1)]).fits());
    assert!(!build(vec![rename(&long, "/b")]).fits());
    let many: Vec<Action> = (0..65536).map(|i| add(&format!("/{i}"), 1)).collect();
    assert!(!build(many).fits());
}

#[test]
fn staged_entries_are_searched() {
    let tree = build(vec![add("/a", 1), rename("/x", "/y")]);
    assert!(tree.any(|p, _| p == "/y"));
    assert!(!tree.any(|p, _| p == "/z"));
    assert!(tree.get("/y").unwrap().matches_path("/y", "/x"));
    assert!(!tree.get("/a").unwrap().matches_path("/a", "/x"));
}

fn checkpoint(gen_id: u64) -> Marker {
    Marker::Checkpoint { gen_id, name: format!("c{gen_id}") }
}

#[test]
fn restores_of_markers_in_sequence_go_back() {
    let ms = Markers::new(vec![
        Marker::Checkpoint { gen_id: 0, name: String::new() },
        checkpoint(1),
        checkpoint(2),
        Marker::Restore { gen_id: 3, target_gen: 1 },
    ]);
    assert!(ms.check_restores(0..4, 4));
    let alive = ms.alive_segments(4);
    assert_eq!(alive, vec![true, false, false, true]);
    assert!(alive[3], "the last segment is live");
    let ms = Markers::new(vec![
        Marker::Checkpoint { gen_id: 0, name: String::new() },
        checkpoint(1),
        checkpoint(2),
    ]);
    assert_eq!(ms.alive_segments(3), vec![true; 3]);
}

fn rchk(gen_id: u64) -> replay::types::Record {
    replay::types::Record::Checkpoint { gen_id, name: format!("c{gen_id}") }
}

fn radd(p: &str) -> replay::types::Record {
    replay::types::Record::Added { path: p.into(), dtype: Some(DType::File), ino: 1 }
}

#[test]
fn segments_hold_every_data_record() {
    let records = vec![radd("/a"), rchk(1), radd("/b"), radd("/c"), rchk(2)];
    let sj = replay::segment::SegmentedJournal::new(replay::types::RawJournal(records));
    assert_eq!(sj.segments.len(), sj.markers.len() + 1);
    let data: usize = sj.segments.iter().map(|s| s.records.len()).sum();
    assert_eq!(data, 3);
}

#[test]
fn a_restore_gives_back_what_was_live() {
    let records = vec![radd("/a"), rchk(1), radd("/b"), rchk(2)];
    let before = replay::journal::Journal::new(records);
    let at: Vec<String> = live(&before.live_segments_at(1));
    let records = vec![
        radd("/a"),
        rchk(1),
        radd("/b"),
        rchk(2),
        replay::types::Record::Restore { gen_id: 3, target_gen: 1 },
    ];
    let after = replay::journal::Journal::new(records);
    assert_eq!(live(&after.live_segments()), at);
}

fn live(segments: &[&replay::types::Segment]) -> Vec<String> {
    segments.iter().flat_map(|s| &s.records).map(|r| format!("{r:?}")).collect()
}

#[test]
fn merged_modifications_are_the_last_of_their_path() {
    let m = |p: &str, ino: u64| replay::types::Record::Modified {
        path: p.into(),
        dtype: Some(DType::File),
        ino,
    };
    let list = replay::compact::compact(vec![m("/a", 1), m("/b", 2), m("/a", 3)]);
    assert_eq!(list.0.len(), 2);
    assert!(matches!(&list.0[0], replay::types::Action::Modify { ino: 2, .. }));
    assert!(matches!(&list.0[1], replay::types::Action::Modify { ino: 3, .. }));
}

fn log(records: Vec<Record>) -> Vec<Change> {
    resolve(records).unwrap()
}

fn deleted(p: &str) -> Record {
    Record::Deleted { path: p.into() }
}

fn redirect(path: &str, base: &str) -> Record {
    Record::Redirect { path: path.into(), dtype: Some(DType::File), base: base.into() }
}

fn added(p: &str, ino: u64) -> Record {
    Record::Added { path: p.into(), dtype: Some(DType::File), ino }
}

#[test]
fn resolving_collapses_as_promised() {
    assert!(log(vec![added("/x", 1), deleted("/x")]).is_empty());
    let c = log(vec![deleted("/a"), redirect("/b", "/a")]);
    assert!(matches!(&c[..], [Change::Renamed { from, to, .. }] if from == "/a" && to == "/b"));
    let c = log(vec![redirect("/b", "/a"), redirect("/c", "/b")]);
    assert!(matches!(&c[..], [Change::Renamed { from, to, .. }] if from == "/a" && to == "/c"));
    let c = log(vec![added("/x", 1), added("/x", 2)]);
    assert!(matches!(&c[..], [Change::Added { ino: 2, .. }]));
}

#[test]
fn changes_come_as_renames_writes_and_deletions() {
    let c = log(vec![deleted("/z"), added("/m", 1), deleted("/a"), redirect("/b", "/a")]);
    assert!(matches!(
        &c[..],
        [Change::Renamed { .. }, Change::Added { .. }, Change::Deleted(_)]
    ));
}

#[test]
fn replaced_paths_are_told_from_renamed_ones() {
    let c = log(vec![
        deleted("/a"),
        Record::Replace { path: "/b".into(), dtype: Some(DType::File), base: "/a".into() },
    ]);
    assert!(matches!(&c[..], [Change::Replaced { from, to, .. }] if from == "/a" && to == "/b"));
}

#[test]
fn restored_items_come_by_path() {
    let items = changes_to_items(&log(vec![added("/z", 1), added("/a", 2), added("/m", 3)]));
    let paths: Vec<&str> = items.iter().map(|i| i.path.as_str()).collect();
    assert_eq!(paths, vec!["/a", "/m", "/z"]);
}

fn chk(gen_id: u64) -> Record {
    Record::Checkpoint(Checkpoint { gen_id, name: format!("c{gen_id}") })
}

#[test]
fn reachable_records_follow_the_last_restore() {
    let records = || {
        vec![
            chk(1),
            added("/a", 1),
            chk(2),
            added("/b", 2),
            Record::Restore { gen_id: 3, target_gen: 1 },
            added("/c", 3),
        ]
    };
    let tl = Timeline::new(records());
    let mut kept: Vec<usize> = reachable_indices(&records()).into_iter().collect();
    kept.sort();
    assert_eq!(kept, vec![0, 5]);
    assert_eq!(reachable(records()).len(), 2);
    assert_eq!(tl.reachable_records().len(), 2);
    for i in 0..6 {
        assert_eq!(tl.is_reachable(i), kept.contains(&i), "{i}");
    }
    assert_eq!(tl.all_records().len(), 6);
    assert_eq!(reachable(vec![chk(1), added("/a", 1)]).len(), 2);
}

#[test]
fn parsing_goes_line_by_line() {
    let a: &[u8] = b"A\0\0a\0f\01\nbroken\n";
    let b: &[u8] = b"K\01\0one\nD\0/d\0x\n";
    let both = [a, b].concat();
    let whole: Vec<String> =
        parse(&both).unwrap().records.iter().map(|r| format!("{r:?}")).collect();
    let parts: Vec<String> = parse(a)
        .unwrap()
        .records
        .iter()
        .chain(parse(b).unwrap().records.iter())
        .map(|r| format!("{r:?}"))
        .collect();
    assert_eq!(whole, parts);
}

#[test]
fn invalid_text_is_replaced() {
    let records = parse(b"D\0/d\0\xff\xfe\n").unwrap().records;
    assert!(matches!(&records[0], Record::Deleted { path } if path == "/d/\u{fffd}\u{fffd}"));
    let records = parse(b"A\0\0a\0f\0\xff\n").unwrap().records;
    assert!(records.is_empty());
    let journal = entry_log::parse("E\0\0caf\u{e9}\01\0f\0\n".as_bytes());
    assert!(matches!(&journal.records[0],
        entry_log::Record::Entry { path, .. } if path == "/caf\u{e9}"));
}

#[test]
fn offsets_rise_and_cut_at_records() {
    let data: &[u8] = b"K\01\0one\nbroken\nE\0\0a\01\0f\0\nK\02\0two\n";
    let journal = entry_log::parse(data);
    assert!(journal.offsets.windows(2).all(|w| w[0] < w[1]));
    for i in 0..journal.records.len() {
        let n = entry_log::truncate_offset(&journal, i).unwrap() as usize;
        let cut = entry_log::parse(&data[..n]);
        assert_eq!(cut.records.len(), i + 1);
    }
    let past = entry_log::truncate_offset(&journal, 3);
    assert!(matches!(past, Err(Error::RecordOutOfBounds)));
}

#[test]
fn a_rule_added_and_removed_is_gone() {
    let with = add_rule(None, "/srv", "allow-ro").unwrap();
    assert_eq!(with.rules.get("/srv"), Some(&Perm::AllowRo));
    assert_eq!(with.rules.len(), 1);
    assert_eq!(with.mount.ask_default, Some(Perm::Deny));
    let with = add_rule(Some(Config::default()), "/srv", "allow-ro").unwrap();
    assert_eq!(with.rules.get("/usr"), Config::default().rules.get("/usr"));
    let without = remove_rule(with, "/srv");
    assert!(!without.rules.contains_key("/srv"));
    assert!(matches!(
        add_rule(None, "/srv", "maybe"),
        Err(Error::UnknownPermission(p)) if p == "maybe"
    ));
}

#[test]
fn maps_list_their_keys_in_order() {
    let mut m: PathMap<u32> = PathMap::new();
    for (i, k) in ["/b", "/a/x", "/a", "/a.b"].iter().enumerate() {
        assert_eq!(m.insert(k.to_string(), i as u32), None);
    }
    assert_eq!(m.insert("/a".into(), 9), Some(2));
    let keys: Vec<&str> = m.entries().iter().map(|e| e.0.as_str()).collect();
    assert_eq!(keys, vec!["/a", "/a.b", "/a/x", "/b"]);
    assert_eq!(m.remove("/a"), Some(9));
    assert_eq!(m.remove("/a"), None);
    assert_eq!((m.len(), m.is_empty()), (3, false));
}

#[test]
fn entries_tell_whether_base_had_them() {
    let mut d = Dstate::StagedInode { ino: 4, dtype: 8, in_base: false };
    assert_eq!((d.dtype(), d.in_base(), d.ino()), (8, false, Some(4)));
    d.set_in_base(true);
    assert!(d.in_base());
    let mut t = Dstate::Tombstone { dtype: 4 };
    t.set_in_base(false);
    assert!(t.in_base() && t.ino().is_none());
    let p = Dstate::BasePath { src: "/a".into(), dtype: 8, in_base: false };
    assert!(p.matches_path("/b", "/a") && p.matches_path("/b", "/b") && !p.matches_path("/b", "/c"));
    let e = dentry::Dentry::StagedInode { ino: 4, dtype: 8, in_base: true };
    assert_eq!((e.dtype(), e.in_base(), e.ino()), (8, true, Some(4)));
}
