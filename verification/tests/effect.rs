//! Replaying compacted and simplified lists leaves behind what replaying
//! every record does.
use agfs::dtype::DType;
use agfs::replay::compact::compact;
use agfs::replay::passes::to_actions;
use agfs::replay::simplify::{chain_collapse, simplify};
use agfs::replay::types::{Action, ActionList, Change, Record};
use std::collections::BTreeMap;

fn base() -> BTreeMap<String, String> {
    ["/a", "/b", "/c"].iter().map(|p| (p.to_string(), format!("base {p}"))).collect()
}

fn replay(actions: &[Action]) -> BTreeMap<String, String> {
    let mut files = base();
    for action in actions {
        match action {
            Action::Add { path, ino, .. } | Action::Modify { path, ino, .. } => {
                files.insert(path.clone(), format!("inode {ino}"));
            }
            Action::Delete { path } => {
                files.remove(path);
            }
            Action::Rename { old, new, .. } | Action::Replace { old, new, .. } => {
                if let Some(f) = files.remove(old) {
                    files.insert(new.clone(), f);
                }
            }
        }
    }
    files
}

fn add(p: &str, ino: u64) -> Record {
    Record::Added { path: p.into(), dtype: Some(DType::File), ino }
}

fn modify(p: &str, ino: u64) -> Record {
    Record::Modified { path: p.into(), dtype: Some(DType::File), ino }
}

fn delete(p: &str) -> Record {
    Record::Deleted { path: p.into() }
}

fn rename(a: &str, b: &str) -> Record {
    Record::Redirect { old: a.into(), new: b.into(), dtype: Some(DType::File) }
}

fn replace(a: &str, b: &str) -> Record {
    Record::Replace { old: a.into(), new: b.into(), dtype: Some(DType::File) }
}

fn histories() -> Vec<Vec<Record>> {
    vec![
        vec![],
        vec![add("/x", 1), delete("/x")],
        vec![add("/x", 1), modify("/x", 2), delete("/x"), add("/x", 3)],
        vec![modify("/a", 1), delete("/a"), rename("/b", "/a")],
        vec![rename("/a", "/x"), modify("/x", 4)],
        vec![replace("/a", "/b"), modify("/b", 4), modify("/b", 5)],
        vec![modify("/a", 1), modify("/b", 2), modify("/a", 3)],
        vec![rename("/a", "/t"), rename("/b", "/a"), rename("/t", "/b")],
        vec![add("/x", 1), rename("/x", "/y"), modify("/y", 2)],
    ]
}

#[test]
fn compacting_keeps_the_effect() {
    for h in histories() {
        let all = to_actions(h.clone());
        assert_eq!(replay(&compact(h).0), replay(&all), "{all:?}");
    }
}

#[test]
fn simplifying_keeps_the_effect() {
    for h in histories() {
        let all = to_actions(h.clone());
        assert_eq!(replay(&simplify(h).0), replay(&all), "{all:?}");
    }
}

#[test]
fn collapsing_safe_chains_keeps_the_effect() {
    let all = to_actions(vec![
        rename("/a", "/x"),
        modify("/c", 1),
        rename("/x", "/y"),
        rename("/y", "/z"),
    ]);
    let list = ActionList(chain_collapse(to_actions(vec![
        rename("/a", "/x"),
        modify("/c", 1),
        rename("/x", "/y"),
        rename("/y", "/z"),
    ])));
    assert_eq!(list.0.len(), 2);
    assert!(matches!(&list.0[0], Action::Rename { old, new, .. } if old == "/a" && new == "/z"));
    assert_eq!(replay(&list.0), replay(&all));
}

#[test]
fn a_staged_net_change_is_what_is_left() {
    for h in histories() {
        let list = ActionList(to_actions(h));
        let files = replay(&list.0);
        for (path, change) in list.collapse().0 {
            if let Change::Added { ino, .. } | Change::Modified { ino, .. } = change {
                assert_eq!(files[&path], format!("inode {ino}"));
            }
        }
    }
}

#[test]
fn untouched_paths_have_no_net_change() {
    let list = ActionList(to_actions(vec![add("/x", 1), rename("/a", "/y")]));
    let changed: Vec<String> = list.collapse().0.into_iter().map(|(p, _)| p).collect();
    assert_eq!(changed, vec!["/a", "/x", "/y"]);
}
