//! What is handed to the kernel module points to the text that is meant.
use agfs::error::Error;
use agfs::ioctl::{checkpoint_at, make_checkpoint, make_rule, rule_at, AGFS_PERM_DENY};
use agfs::record_log::restore::{entry_at, items_to_entries, RestoreItem};

fn item(path: &str, base: &str) -> RestoreItem {
    RestoreItem { path: path.into(), ino: 7, base: base.into(), in_base: true, d_type: 8 }
}

#[test]
fn rules_and_checkpoints_point_to_their_text() {
    let (path, name) = ("/some/path".to_string(), "before the change".to_string());
    let rule = make_rule(&path, AGFS_PERM_DENY).unwrap();
    assert_eq!(rule.path_ptr, path.as_ptr() as u64);
    let chk = make_checkpoint(&name).unwrap();
    assert_eq!(chk.name_ptr, name.as_ptr() as u64);
    assert_eq!((chk.id, chk.name_len, chk._pad), (0, 17, [0; 6]));
}

#[test]
fn entries_point_into_their_items() {
    let items = vec![item("/a", "/from"), item("/bc", "")];
    let entries = items_to_entries(&items).unwrap();
    for (e, i) in entries.iter().zip(&items) {
        assert_eq!(e.path_ptr, i.path.as_ptr() as u64);
        assert_eq!(e.base_ptr, i.base.as_ptr() as u64);
        assert_eq!((e.path_len as usize, e.base_len as usize), (i.path.len(), i.base.len()));
    }
}

#[test]
fn addresses_are_taken_as_given() {
    let rule = rule_at(41, "/é", AGFS_PERM_DENY).unwrap();
    assert_eq!((rule.path_ptr, rule.path_len, rule.perm), (41, 3, AGFS_PERM_DENY));
    let chk = checkpoint_at(42, "n").unwrap();
    assert_eq!((chk.name_ptr, chk.name_len), (42, 1));
    let e = entry_at(&item("/a", "/from"), 43, 44).unwrap();
    assert_eq!((e.path_ptr, e.path_len, e.base_ptr, e.base_len), (43, 2, 44, 5));
    assert_eq!((e.ino, e.d_type, e.in_base), (7, 8, 1));
}

#[test]
fn texts_that_are_too_long_are_told_apart() {
    let most = "a".repeat(u16::MAX as usize);
    let long = "a".repeat(u16::MAX as usize + 1);
    assert!(rule_at(0, &most, 0).is_ok() && checkpoint_at(0, &most).is_ok());
    assert!(matches!(rule_at(0, &long, 0), Err(Error::PathTooLong)));
    assert!(matches!(checkpoint_at(0, &long), Err(Error::NameTooLong)));
    assert!(entry_at(&item(&most, &most), 0, 0).is_ok());
    assert!(matches!(entry_at(&item(&long, &long), 0, 0), Err(Error::RestorePathTooLong)));
    assert!(matches!(entry_at(&item("/a", &long), 0, 0), Err(Error::BaseTooLong)));
}
