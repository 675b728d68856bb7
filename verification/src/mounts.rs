//! What the mount commands decide: whether something is mounted, and which
//! processes keep it busy.
use crate::commands::{is_yes, says_yes};
use crate::text::{number, parse_number};
use vstd::prelude::*;
use vstd::string::StringExecFns;

verus! {

/// A process, by the name of its directory, and the devices of its open files.
#[derive(Debug)]
pub struct Process {
    pub name: String,
    pub devices: Vec<u64>,
}

/// True when a mounted filesystem begins at a directory: it is on another
/// device than the directory above it. One that cannot be read is none.
pub fn is_mountpoint(device: Option<u64>, parent_device: Option<u64>) -> (r: bool)
    ensures
        r == (device is Some && parent_device is Some && device != parent_device),
{
    match (device, parent_device) {
        (Some(d), Some(p)) => d != p,
        _ => false,
    }
}

/// The number of a process that keeps the device busy, if this one does. The
/// process that asks is left out.
pub open spec fn blocker(p: Process, device: u64, self_pid: u32) -> Option<u32> {
    match number(p.name@) {
        Some(n) => if n <= u32::MAX && n != self_pid && p.devices@.contains(device) {
            Some(n as u32)
        } else {
            None
        },
        None => None,
    }
}

/// The processes among the first `n` that keep the device busy.
pub open spec fn blockers(ps: Seq<Process>, n: int, device: u64, self_pid: u32) -> Seq<u32>
    decreases n,
{
    if n <= 0 {
        Seq::empty()
    } else {
        match blocker(ps[n - 1], device, self_pid) {
            Some(p) => blockers(ps, n - 1, device, self_pid).push(p),
            None => blockers(ps, n - 1, device, self_pid),
        }
    }
}

/// True when a device is among those listed.
fn holds(devices: &Vec<u64>, device: u64) -> (r: bool)
    ensures
        r == devices@.contains(device),
{
    let mut i: usize = 0;
    while i < devices.len()
        invariant
            i <= devices@.len(),
            forall|k: int| 0 <= k < i ==> #[trigger] devices@[k] != device,
        decreases devices@.len() - i,
    {
        if devices[i] == device {
            return true;
        }
        i += 1;
    }
    false
}

/// The processes that keep a device busy.
pub fn blocking_pids(processes: &Vec<Process>, device: u64, self_pid: u32) -> (r: Vec<u32>)
    ensures
        r@ == blockers(processes@, processes@.len() as int, device, self_pid),
{
    let mut out: Vec<u32> = Vec::new();
    let mut i: usize = 0;
    while i < processes.len()
        invariant
            i <= processes@.len(),
            out@ == blockers(processes@, i as int, device, self_pid),
        decreases processes@.len() - i,
    {
        if let Some(n) = parse_number(processes[i].name.as_str()) {
            if n <= u32::MAX as u64 && n != self_pid as u64 && holds(
                &processes[i].devices,
                device,
            ) {
                out.push(n as u32);
            }
        }
        i += 1;
    }
    out
}

// ── Unmounting ───────────────────────────────────────────────────────

/// What came of an attempt to unmount.
#[derive(Debug)]
pub enum Attempt {
    Unmounted,
    /// Something is still in use there.
    Busy,
    /// It failed for another reason.
    Failed(String),
}

/// What comes after an attempt to unmount.
#[derive(Debug)]
pub enum Unmounting {
    Done,
    /// Ask whether the processes that keep it busy are to be ended.
    Ask,
    Fail(String),
}

/// What comes after an attempt to unmount `target`, where `blockers` keep it
/// busy. There has to be one of them to be asked about.
pub fn after_attempt(target: &str, attempt: Attempt, blockers: &Vec<u32>) -> (r: Unmounting)
    ensures
        match attempt {
            Attempt::Unmounted => r is Done,
            Attempt::Busy => if blockers@.len() > 0 {
                r is Ask
            } else {
                r matches Unmounting::Fail(m) && m@ == target@
                    + " is busy (could not identify blocking processes)"@
            },
            Attempt::Failed(e) => r matches Unmounting::Fail(m) && m@ == "umount "@ + target@
                + ": "@ + e@,
        },
{
    match attempt {
        Attempt::Unmounted => Unmounting::Done,
        Attempt::Busy => if blockers.len() > 0 {
            Unmounting::Ask
        } else {
            Unmounting::Fail(
                target.to_owned().concat(" is busy (could not identify blocking processes)"),
            )
        },
        Attempt::Failed(e) => Unmounting::Fail(
            "umount ".to_owned().concat(target).concat(": ").concat(e.as_str()),
        ),
    }
}

/// Whether the processes that keep `target` busy are to be ended. They are
/// where the answer is yes, and unmounting fails where it is not.
pub fn after_answer(target: &str, line: &str) -> (r: Result<(), String>)
    ensures
        r is Ok <==> says_yes(line@),
        r matches Err(m) ==> m@ == target@
            + " is busy (user declined to kill blocking processes)"@,
{
    if is_yes(line) {
        Ok(())
    } else {
        Err(target.to_owned().concat(" is busy (user declined to kill blocking processes)"))
    }
}

/// A process is listed exactly where it holds a file on the device, and is not
/// the one that asks.
pub proof fn law_blockers_hold_the_device(
    ps: Seq<Process>,
    n: int,
    device: u64,
    self_pid: u32,
    pid: u32,
)
    requires
        0 <= n <= ps.len(),
    ensures
        blockers(ps, n, device, self_pid).contains(pid) <==> pid != self_pid && exists|i: int|
            0 <= i < n && number((#[trigger] ps[i]).name@) == Some(pid as u64)
                && ps[i].devices@.contains(device),
    decreases n,
{
    if n > 0 {
        law_blockers_hold_the_device(ps, n - 1, device, self_pid, pid);
        let (a, b) = (blockers(ps, n - 1, device, self_pid), blockers(ps, n, device, self_pid));
        let p = ps[n - 1];
        if b.contains(pid) {
            let k = choose|k: int| 0 <= k < b.len() && b[k] == pid;
            if k < a.len() {
                assert(a[k] == pid);
                assert(a.contains(pid));
            } else {
                assert(number(ps[n - 1].name@) == Some(pid as u64));
            }
        }
        if a.contains(pid) {
            let k = choose|k: int| 0 <= k < a.len() && a[k] == pid;
            assert(b[k] == pid);
        }
        if pid != self_pid && number(p.name@) == Some(pid as u64) && p.devices@.contains(device) {
            assert(b[a.len() as int] == pid);
        }
    }
}

} // verus!
