//! A commit of the record log leaves in base what the records left there, one
//! after the other.
use agfs::commit::Step;
use agfs::dtype::DType;
use agfs::record_log::commit::plan_commit;
use agfs::record_log::types::Record;
use std::collections::BTreeMap;

type Files = BTreeMap<String, String>;

fn base() -> Files {
    ["/a", "/b", "/c"].iter().map(|p| (p.to_string(), format!("base {p}"))).collect()
}

fn recorded(records: &[Record]) -> Files {
    let mut files = base();
    for record in records {
        match record {
            Record::Added { path, ino, .. } | Record::Modified { path, ino, .. } => {
                files.insert(path.clone(), format!("inode {ino}"));
            }
            Record::Deleted { path } => {
                files.remove(path);
            }
            Record::Redirect { path, base: from, .. } | Record::Replace { path, base: from, .. } => {
                let there = if path == from { None } else { files.remove(from) };
                match there.or_else(|| base().remove(from)) {
                    Some(f) => files.insert(path.clone(), f),
                    None => files.remove(path),
                };
            }
            Record::Checkpoint(_) | Record::Restore { .. } => {}
        }
    }
    files
}

fn committed(records: Vec<Record>) -> Files {
    let mut files = base();
    for step in plan_commit(records).unwrap() {
        match step {
            Step::Place { path, ino } => {
                files.insert(path, format!("inode {ino}"));
            }
            Step::Remove { path } => {
                files.remove(&path);
            }
            Step::Move { from, to, .. } => {
                if let Some(f) = files.remove(&from) {
                    files.insert(to, f);
                }
            }
        }
    }
    files
}

fn add(p: &str, ino: u64) -> Record {
    Record::Added { path: p.into(), dtype: Some(DType::File), ino }
}

fn modify(p: &str, ino: u64) -> Record {
    Record::Modified { path: p.into(), dtype: Some(DType::File), ino }
}

fn delete(p: &str) -> Record {
    Record::Deleted { path: p.into() }
}

fn redirect(p: &str, from: &str) -> Record {
    Record::Redirect { path: p.into(), dtype: Some(DType::File), base: from.into() }
}

fn replace(p: &str, from: &str) -> Record {
    Record::Replace { path: p.into(), dtype: Some(DType::File), base: from.into() }
}

fn histories() -> Vec<fn() -> Vec<Record>> {
    vec![
        || vec![],
        || vec![add("/x", 1), modify("/x", 2)],
        || vec![add("/x", 1), delete("/x")],
        || vec![modify("/a", 1), delete("/a")],
        || vec![delete("/a"), add("/a", 3)],
        || vec![delete("/a"), redirect("/x", "/a")],
        || vec![delete("/a"), redirect("/x", "/a"), modify("/x", 4)],
        || vec![delete("/a"), redirect("/x", "/a"), add("/a", 5)],
        || vec![delete("/a"), redirect("/x", "/a"), delete("/x")],
        || vec![delete("/a"), redirect("/x", "/a"), delete("/x"), redirect("/y", "/a")],
        || vec![delete("/a"), redirect("/x", "/a"), delete("/x"), redirect("/a", "/a")],
        || vec![delete("/a"), replace("/b", "/a")],
        || vec![delete("/a"), replace("/b", "/a"), modify("/b", 6), delete("/c")],
        || vec![delete("/a"), redirect("/x", "/a"), delete("/b"), replace("/x", "/b")],
        || vec![redirect("/x", "/a"), redirect("/y", "/x")],
        || vec![add("/x", 1), redirect("/y", "/x")],
        || vec![add("/x", 1), redirect("/y", "/x"), add("/x", 2), redirect("/z", "/x")],
        || vec![delete("/a"), add("/a", 7), redirect("/x", "/a")],
        || vec![redirect("/0", "/a"), redirect("/a", "/b")],
        || vec![redirect("/c", "/b"), modify("/c", 6), redirect("/b", "/a"), modify("/b", 5)],
    ]
}

#[test]
fn commit_leaves_what_the_records_left() {
    for history in histories() {
        assert_eq!(committed(history()), recorded(&history()), "{:?}", history());
    }
}

#[test]
fn commit_of_a_rename_and_a_write() {
    let files = committed(vec![delete("/a"), redirect("/x", "/a"), add("/a", 5)]);
    assert_eq!(files.get("/x").map(String::as_str), Some("base /a"));
    assert_eq!(files.get("/a").map(String::as_str), Some("inode 5"));
    assert_eq!(files.len(), 4);
}
