//! Finding mounted sessions.
use agfs::kmod::parse_mounts;

#[test]
fn parse_mounts_extracts_agfs_sources() {
    let content = "\
/dev/sda1 / ext4 rw,relatime 0 0
/home/user/.agfs/abc /.agfs/abc/mnt agfs rw 0 0
proc /proc proc rw,nosuid 0 0
/tmp/project/.agfs /.agfs/mnt agfs rw 0 0
";

    let dirs = parse_mounts(content);
    assert_eq!(dirs, vec!["/home/user/.agfs/abc", "/tmp/project/.agfs",]);
}

#[test]
fn parse_mounts_empty_input() {
    assert!(parse_mounts("").is_empty());
}

#[test]
fn parse_mounts_no_agfs_entries() {
    let content = "\
/dev/sda1 / ext4 rw,relatime 0 0
proc /proc proc rw,nosuid 0 0
";

    assert!(parse_mounts(content).is_empty());
}

#[test]
fn parse_mounts_ignores_substring_matches() {
    // "magfs" contains "agfs" but should not match " agfs "
    let content = "src /mnt magfs rw 0 0\n";
    assert!(parse_mounts(content).is_empty());
}
