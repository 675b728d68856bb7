//! The structures handed to the kernel module.
use agfs::ioctl::{
    make_rule, AgfsCtlRequest, AgfsCtlResponse, AgfsIocCheckpoint, AgfsIocRestore,
    AgfsIocRestoreEntry, AgfsIocRule, PermRequest, AGFS_OP_EXEC, AGFS_OP_READ, AGFS_OP_WRITE,
    AGFS_PERM_ALLOW, AGFS_PERM_DENY,
};

#[test]
fn struct_sizes() {
    // Must match the kernel struct sizes for binary protocol compat
    assert_eq!(size_of::<AgfsCtlRequest>(), 48);
    assert_eq!(size_of::<AgfsCtlResponse>(), 16);
    assert_eq!(size_of::<AgfsIocRule>(), 16);
    assert_eq!(size_of::<AgfsIocCheckpoint>(), 24);
    assert_eq!(size_of::<AgfsIocRestoreEntry>(), 40);
    assert_eq!(size_of::<AgfsIocRestore>(), 24);
}

#[test]
fn perm_request_helpers() {
    let req = PermRequest {
        id: 1,
        op: AGFS_OP_READ,
        pid: 42,
        comm: {
            let mut c = [0u8; 16];
            c[..4].copy_from_slice(b"bash");
            c
        },
        path: "hello".into(),
    };
    assert_eq!(req.path_str(), "hello");
    assert_eq!(req.comm_str(), "bash");
    assert_eq!(req.op_str(), "read");
}

#[test]
fn op_str_all_variants() {
    let mk = |op| PermRequest {
        id: 0,
        op,
        pid: 0,
        comm: [0u8; 16],
        path: String::new(),
    };
    assert_eq!(mk(AGFS_OP_READ).op_str(), "read");
    assert_eq!(mk(AGFS_OP_WRITE).op_str(), "write");
    assert_eq!(mk(AGFS_OP_EXEC).op_str(), "exec");
    assert_eq!(mk(99).op_str(), "unknown");
}

#[test]
fn make_rule_basic() {
    let rule = make_rule("/foo/bar", AGFS_PERM_ALLOW).unwrap();
    assert_eq!(rule.path_len, 8);
    assert_eq!(rule.perm, AGFS_PERM_ALLOW);
    assert_eq!(rule.path_ptr, "/foo/bar".as_ptr() as u64);
}

#[test]
fn make_rule_rejects_oversized_path() {
    let long = "a".repeat(u16::MAX as usize + 1);
    assert!(make_rule(&long, AGFS_PERM_DENY).is_err());
}
