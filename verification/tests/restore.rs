//! Turning changes into what a restore hands to the kernel module.
use agfs::dtype::DType;
use agfs::record_log::resolve::Change;
use agfs::record_log::restore::{changes_to_items, items_to_entries, RestoreItem, INO_REDIRECT};

#[test]
fn restore_item_of_added() {
    let changes = vec![Change::Added {
        path: "/src/main.rs".into(),
        ino: 1,
        dtype: DType::File,
    }];
    let items = changes_to_items(&changes);
    assert_eq!(items.len(), 1);
    assert_eq!(items[0].path, "/src/main.rs");
    assert_eq!(items[0].ino, 1);
    assert_eq!(items[0].d_type, libc::DT_REG);
    assert_eq!(items[0].base, "");
}

#[test]
fn deleted_produces_zero_entry() {
    let changes = vec![Change::Deleted("/old.txt".into())];
    let items = changes_to_items(&changes);
    assert_eq!(items.len(), 1);
    assert_eq!(items[0].path, "/old.txt");
    assert_eq!(items[0].ino, 0);
    assert_eq!(items[0].base, "");
}

#[test]
fn renamed_produces_delete_and_redirect() {
    let changes = vec![Change::Renamed {
        from: "/a.txt".into(),
        to: "/b.txt".into(),
        dtype: DType::File,
    }];
    let items = changes_to_items(&changes);
    assert_eq!(items.len(), 2);

    let del = items.iter().find(|e| e.path == "/a.txt").unwrap();
    assert_eq!(del.ino, 0);

    let redirect = items.iter().find(|e| e.path == "/b.txt").unwrap();
    assert_eq!(redirect.ino, INO_REDIRECT);
    assert_eq!(redirect.base, "/a.txt");
    assert_eq!(redirect.d_type, libc::DT_REG);
}

#[test]
fn renamed_modified_produces_delete_and_ino() {
    let changes = vec![
        Change::Renamed {
            from: "/old.rs".into(),
            to: "/new.rs".into(),
            dtype: DType::File,
        },
        Change::Modified {
            path: "/new.rs".into(),
            ino: 5,
            dtype: DType::File,
        },
    ];
    let items = changes_to_items(&changes);
    assert_eq!(items.len(), 2);

    // Sorted: /new.rs before /old.rs
    assert_eq!(items[0].path, "/new.rs");
    assert_eq!(items[0].ino, 5);
    assert_eq!(items[0].base, "");

    assert_eq!(items[1].path, "/old.rs");
    assert_eq!(items[1].ino, 0);
}

#[test]
fn entries_sorted_by_path() {
    let changes = vec![
        Change::Added {
            path: "/z/file.rs".into(),
            ino: 1,
            dtype: DType::File,
        },
        Change::Added {
            path: "/a/file.rs".into(),
            ino: 2,
            dtype: DType::File,
        },
        Change::Added {
            path: "/a".into(),
            ino: 3,
            dtype: DType::Dir,
        },
    ];
    let items = changes_to_items(&changes);
    assert_eq!(items.len(), 3);
    assert_eq!(items[0].path, "/a");
    assert_eq!(items[1].path, "/a/file.rs");
    assert_eq!(items[2].path, "/z/file.rs");
}

#[test]
fn directory_inode_gets_dt_dir() {
    let changes = vec![Change::Added {
        path: "/newdir".into(),
        ino: 1,
        dtype: DType::Dir,
    }];
    let items = changes_to_items(&changes);
    assert_eq!(items[0].d_type, libc::DT_DIR);
}

#[test]
fn symlink_inode_gets_dt_lnk() {
    let changes = vec![Change::Added {
        path: "/link".into(),
        ino: 1,
        dtype: DType::Link,
    }];
    let items = changes_to_items(&changes);
    assert_eq!(items[0].d_type, libc::DT_LNK);
}

#[test]
fn items_to_entries_sets_pointers() {
    let items = vec![RestoreItem {
        path: "/src/main.rs".into(),
        ino: 1,
        base: String::new(),
        in_base: false,
        d_type: libc::DT_REG,
    }];
    let entries = items_to_entries(&items).unwrap();
    assert_eq!(entries.len(), 1);
    assert_eq!(entries[0].path_len, 12);
    assert_eq!(entries[0].ino, 1);
    assert_eq!(entries[0].d_type, libc::DT_REG);
    assert_eq!(entries[0].base_len, 0);
}

#[test]
fn items_to_entries_rejects_oversized_path() {
    let items = vec![RestoreItem {
        path: "a".repeat(u16::MAX as usize + 1),
        ino: 0,
        base: String::new(),
        in_base: false,
        d_type: 0,
    }];
    assert!(items_to_entries(&items).is_err());
}

#[test]
fn items_to_entries_rejects_oversized_base() {
    let items = vec![RestoreItem {
        path: "/ok".into(),
        ino: 0,
        base: "a".repeat(u16::MAX as usize + 1),
        in_base: false,
        d_type: 0,
    }];
    assert!(items_to_entries(&items).is_err());
}

#[test]
fn empty_changes_produces_no_entries() {
    let items = changes_to_items(&[]);
    assert!(items.is_empty());
}

/// Renamed directory must produce DT_DIR, not DT_REG.
#[test]
fn renamed_directory_gets_dt_dir() {
    let changes = vec![Change::Renamed {
        from: "/mydir".into(),
        to: "/newdir".into(),
        dtype: DType::Dir,
    }];
    let items = changes_to_items(&changes);

    let to_item = items.iter().find(|e| e.path == "/newdir").unwrap();
    assert_eq!(
        to_item.d_type,
        libc::DT_DIR,
        "renamed directory should have DT_DIR, got {}",
        to_item.d_type
    );
}

/// Renamed symlink must produce DT_LNK, not DT_REG.
#[test]
fn renamed_symlink_gets_dt_lnk() {
    let changes = vec![Change::Renamed {
        from: "/mylink".into(),
        to: "/newlink".into(),
        dtype: DType::Link,
    }];
    let items = changes_to_items(&changes);

    let to_item = items.iter().find(|e| e.path == "/newlink").unwrap();
    assert_eq!(
        to_item.d_type,
        libc::DT_LNK,
        "renamed symlink should have DT_LNK, got {}",
        to_item.d_type
    );
}
