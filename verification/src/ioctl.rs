//! The binary protocol with the kernel module: what goes into its requests
//! and what its answers mean.
use crate::error::Error;
use vstd::prelude::*;
use vstd::string::StringSliceAdditionalSpecFns;

verus! {

/// The longest path that the kernel module hands out, its NUL included.
pub const AGFS_PATH_MAX: usize = 256;

/// Operations that the kernel module asks about.
pub const AGFS_OP_READ: u32 = 1;

pub const AGFS_OP_WRITE: u32 = 2;

pub const AGFS_OP_EXEC: u32 = 3;

/// Permissions of a rule.
pub const AGFS_PERM_NONE: u8 = 0;

pub const AGFS_PERM_ASK: u8 = 1;

pub const AGFS_PERM_ALLOW: u8 = 2;

pub const AGFS_PERM_ALLOW_RW: u8 = 3;

pub const AGFS_PERM_ALLOW_RO: u8 = 4;

pub const AGFS_PERM_ALLOW_RX: u8 = 5;

pub const AGFS_PERM_DENY: u8 = 6;

/// A rule for a path.
pub struct AgfsIocRule {
    pub path_ptr: u64,
    pub path_len: u16,
    pub perm: u8,
    pub _pad: [u8; 5],
}

/// A question of the kernel module. The caller provides a buffer for the path.
#[derive(Clone, Copy)]
pub struct AgfsCtlRequest {
    pub id: u64,
    pub op: u32,
    pub pid: u32,
    pub comm: [u8; 16],
    pub path_ptr: u64,
    pub path_buf_len: u16,
    pub path_len: u16,
    pub _pad: [u8; 4],
}

/// The answer to a question.
pub struct AgfsCtlResponse {
    pub id: u64,
    pub decision: u8,
    pub _pad: [u8; 7],
}

/// A checkpoint to be made; the kernel module fills in its number.
pub struct AgfsIocCheckpoint {
    pub id: u64,
    pub name_ptr: u64,
    pub name_len: u16,
    pub _pad: [u8; 6],
}

/// One entry of the staging state to be restored.
pub struct AgfsIocRestoreEntry {
    pub path_ptr: u64,
    pub path_len: u16,
    pub d_type: u8,
    pub in_base: u8,
    pub _pad1: [u8; 4],
    pub ino: u64,
    pub base_ptr: u64,
    pub base_len: u16,
    pub _pad2: [u8; 6],
}

/// The staging state to be restored: the address of its entries and their number.
pub struct AgfsIocRestore {
    pub checkpoint_gen: u64,
    pub entry_count: u64,
    pub entries: u64,
}

/// A question of the kernel module, with its path.
pub struct PermRequest {
    pub id: u64,
    pub op: u32,
    pub pid: u32,
    pub comm: [u8; 16],
    pub path: String,
}

/// `str::as_ptr`: the address at which the bytes of `s` stand. Nothing is
/// claimed of it: an address is the machine's choice.
#[verifier::external_body]
pub(crate) fn address(s: &str) -> (r: u64)
{
    s.as_ptr() as u64
}

/// `std::str::from_utf8`: the text of `bytes` where they are valid UTF-8.
#[verifier::external_body]
pub(crate) fn utf8_text(bytes: &[u8]) -> (r: Option<&str>)
    ensures
        match r {
            Some(s) => vstd::utf8::valid_utf8(bytes@) && s@ == vstd::utf8::decode_utf8(bytes@),
            None => !vstd::utf8::valid_utf8(bytes@),
        },
{
    std::str::from_utf8(bytes).ok()
}

/// The text of bytes, or a stand-in where they are not UTF-8.
pub open spec fn text_or_invalid(bytes: Seq<u8>) -> Seq<char> {
    if vstd::utf8::valid_utf8(bytes) {
        vstd::utf8::decode_utf8(bytes)
    } else {
        "<invalid>"@
    }
}

/// The bytes before the first NUL.
pub open spec fn before_nul(s: Seq<u8>) -> Seq<u8>
    decreases s.len(),
{
    if s.len() == 0 || s[0] == 0 {
        Seq::empty()
    } else {
        seq![s[0]] + before_nul(s.skip(1))
    }
}

/// The word for an operation.
pub open spec fn op_name(op: u32) -> Seq<char> {
    if op == AGFS_OP_READ {
        "read"@
    } else if op == AGFS_OP_WRITE {
        "write"@
    } else if op == AGFS_OP_EXEC {
        "exec"@
    } else {
        "unknown"@
    }
}

proof fn lemma_before_nul(s: Seq<u8>, n: int)
    requires
        0 <= n <= s.len(),
        forall|i: int| 0 <= i < n ==> #[trigger] s[i] != 0,
        n == s.len() || s[n] == 0,
    ensures
        before_nul(s) == s.take(n),
    decreases n,
{
    if n == 0 {
        assert(s.take(0) =~= Seq::<u8>::empty());
    } else {
        let t = s.skip(1);
        assert forall|i: int| 0 <= i < n - 1 implies #[trigger] t[i] != 0 by {
            assert(s[i + 1] != 0);
        }
        lemma_before_nul(t, n - 1);
        assert(seq![s[0]] + t.take(n - 1) =~= s.take(n));
    }
}

impl PermRequest {
    /// The path asked about.
    pub fn path_str(&self) -> (r: &str)
        ensures
            r@ == self.path@,
    {
        self.path.as_str()
    }

    /// The name of the asking process.
    pub fn comm_str(&self) -> (r: &str)
        ensures
            r@ == text_or_invalid(before_nul(self.comm@)),
    {
        let mut end: usize = 0;
        while end < 16 && self.comm[end] != 0
            invariant
                end <= 16,
                forall|i: int| 0 <= i < end ==> #[trigger] self.comm@[i] != 0,
            decreases 16 - end,
        {
            end += 1;
        }
        proof {
            lemma_before_nul(self.comm@, end as int);
        }
        let bytes: &[u8] = &self.comm[0..end];
        assert(bytes@ =~= self.comm@.take(end as int));
        match utf8_text(bytes) {
            Some(s) => s,
            None => "<invalid>",
        }
    }

    /// The word for the operation asked about.
    pub fn op_str(&self) -> (r: &'static str)
        ensures
            r@ == op_name(self.op),
    {
        if self.op == AGFS_OP_READ {
            "read"
        } else if self.op == AGFS_OP_WRITE {
            "write"
        } else if self.op == AGFS_OP_EXEC {
            "exec"
        } else {
            "unknown"
        }
    }

    /// The question that the kernel module has filled in, with the path that
    /// it left in the buffer.
    pub fn from_raw(req: &AgfsCtlRequest, path_buf: &[u8]) -> (r: PermRequest)
        requires
            req.path_len <= path_buf@.len(),
        ensures
            r.id == req.id,
            r.op == req.op,
            r.pid == req.pid,
            r.comm == req.comm,
            r.path@ == text_or_invalid(path_buf@.take(req.path_len as int)),
    {
        let bytes: &[u8] = &path_buf[0..req.path_len as usize];
        assert(bytes@ =~= path_buf@.take(req.path_len as int));
        let path: String = match utf8_text(bytes) {
            Some(s) => s.to_owned(),
            None => "<invalid>".to_owned(),
        };
        PermRequest { id: req.id, op: req.op, pid: req.pid, comm: req.comm, path }
    }
}

/// Nothing but zero bytes.
pub open spec fn all_zero(s: Seq<u8>) -> bool {
    forall|i: int| 0 <= i < s.len() ==> #[trigger] s[i] == 0
}

/// A rule that gives a path, whose bytes stand at `path_ptr`, a permission.
/// Fails where the path is too long.
pub fn rule_at(path_ptr: u64, path: &str, perm: u8) -> (r: Result<AgfsIocRule, Error>)
    ensures
        match r {
            Ok(rule) => path.spec_bytes().len() <= u16::MAX && rule.path_ptr == path_ptr
                && rule.path_len == path.spec_bytes().len() && rule.perm == perm && all_zero(
                rule._pad@,
            ),
            Err(e) => path.spec_bytes().len() > u16::MAX && e is PathTooLong,
        },
{
    let len: usize = path.as_bytes().len();
    if len > 65535 {
        return Err(Error::PathTooLong);
    }
    Ok(AgfsIocRule { path_ptr, path_len: len as u16, perm, _pad: [0u8;5] })
}

/// A rule that gives a path a permission. Fails where the path is too long.
/// The rule points to the path: it is [`rule_at`] the address of its bytes.
pub fn make_rule(path: &str, perm: u8) -> (r: Result<AgfsIocRule, Error>)
    ensures
        match r {
            Ok(rule) => path.spec_bytes().len() <= u16::MAX && rule.path_len
                == path.spec_bytes().len() && rule.perm == perm && all_zero(rule._pad@),
            Err(e) => path.spec_bytes().len() > u16::MAX && e is PathTooLong,
        },
{
    rule_at(address(path), path, perm)
}

/// A request for a checkpoint with a name, whose bytes stand at `name_ptr`.
/// Fails where the name is too long.
pub fn checkpoint_at(name_ptr: u64, name: &str) -> (r: Result<AgfsIocCheckpoint, Error>)
    ensures
        match r {
            Ok(chk) => name.spec_bytes().len() <= u16::MAX && chk.name_ptr == name_ptr
                && chk.name_len == name.spec_bytes().len() && chk.id == 0 && all_zero(chk._pad@),
            Err(e) => name.spec_bytes().len() > u16::MAX && e is NameTooLong,
        },
{
    let len: usize = name.as_bytes().len();
    if len > 65535 {
        return Err(Error::NameTooLong);
    }
    Ok(AgfsIocCheckpoint { id: 0, name_ptr, name_len: len as u16, _pad: [0u8;6] })
}

/// A request for a checkpoint with a name. Fails where the name is too long.
/// The request points to the name: it is [`checkpoint_at`] the address of its bytes.
pub fn make_checkpoint(name: &str) -> (r: Result<AgfsIocCheckpoint, Error>)
    ensures
        match r {
            Ok(chk) => name.spec_bytes().len() <= u16::MAX && chk.name_len
                == name.spec_bytes().len() && chk.id == 0 && all_zero(chk._pad@),
            Err(e) => name.spec_bytes().len() > u16::MAX && e is NameTooLong,
        },
{
    checkpoint_at(address(name), name)
}

/// The answer to a question.
pub fn make_response(id: u64, decision: u8) -> (r: AgfsCtlResponse)
    ensures
        r.id == id,
        r.decision == decision,
        all_zero(r._pad@),
{
    AgfsCtlResponse { id, decision, _pad: [0u8;7] }
}

/// The kernel module numbers what it asks about: 1 is a read, 2 a write and 3
/// an execution, and no other number is any of these.
pub proof fn law_operations_are_known(op: u32)
    ensures
        op_name(op) == "read"@ <==> op == 1,
        op_name(op) == "write"@ <==> op == 2,
        op_name(op) == "exec"@ <==> op == 3,
        op_name(op) == "unknown"@ <==> !(1 <= op <= 3),
{
    reveal_strlit("read");
    reveal_strlit("write");
    reveal_strlit("exec");
    reveal_strlit("unknown");
    assert("read"@.len() == 4 && "write"@.len() == 5 && "exec"@.len() == 4 && "unknown"@.len()
        == 7);
    assert("read"@[0] != "exec"@[0]);
}

/// The name of a process ends before the first NUL, or with its buffer.
pub proof fn law_ends_before_nul(s: Seq<u8>)
    ensures
        ({
            let n = before_nul(s).len() as int;
            &&& n <= s.len()
            &&& before_nul(s) == s.take(n)
            &&& forall|i: int| 0 <= i < n ==> #[trigger] s[i] != 0
            &&& n < s.len() ==> s[n] == 0
        }),
    decreases s.len(),
{
    if s.len() > 0 && s[0] != 0 {
        let t = s.skip(1);
        law_ends_before_nul(t);
        let n = before_nul(s).len() as int;
        assert(before_nul(s) =~= s.take(n));
        assert forall|i: int| 0 <= i < n implies #[trigger] s[i] != 0 by {
            if i > 0 {
                assert(t[i - 1] == s[i]);
            }
        }
        if n < s.len() {
            assert(t[n - 1] == s[n]);
        }
    } else {
        assert(before_nul(s) =~= s.take(0));
    }
}

} // verus!
