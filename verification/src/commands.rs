//! What commands decide: answers to prompts, names of checkpoints, the
//! command to run, and how a staged inode is put into base.
use crate::text::{
    decimal, digits_value, join, law_decimal_has_value, number, parse_number, plural, same, separated, string_views, to_decimal, trim,
    trimmed,
};
use vstd::prelude::*;
use vstd::string::StringExecFns;

verus! {

// ── Answers to prompts ───────────────────────────────────────────────

/// The character in lower case, if it is an ASCII letter.
pub open spec fn lower(c: char) -> char {
    if 'A' <= c && c <= 'Z' {
        ((c as u32 + 32) as u8) as char
    } else {
        c
    }
}

/// The text with its ASCII letters in lower case.
pub open spec fn lowered(s: Seq<char>) -> Seq<char> {
    Seq::new(s.len(), |i: int| lower(s[i]))
}

/// The text with its ASCII letters in lower case.
pub fn to_lower(s: &str) -> (r: String)
    ensures
        r@ == lowered(s@),
{
    let v = crate::text::chars_of(s);
    let mut r = String::new();
    let mut i: usize = 0;
    while i < v.len()
        invariant
            i <= v@.len(),
            v@ == s@,
            r@ == lowered(s@.take(i as int)),
        decreases v@.len() - i,
    {
        let c: char = v[i];
        proof {
            assert(lowered(s@.take(i + 1)) =~= lowered(s@.take(i as int)).push(lower(c)));
        }
        if 'A' <= c && c <= 'Z' {
            let n: u8 = (c as u32 + 32) as u8;
            r.push(n as char);
        } else {
            r.push(c);
        }
        i += 1;
    }
    assert(s@.take(s@.len() as int) =~= s@);
    r
}

/// True for the answer yes: the letter `y`, in either case.
pub open spec fn says_yes(line: Seq<char>) -> bool {
    lowered(trimmed(line)) == "y"@
}

/// True for the answer yes: the letter `y`, in either case.
pub fn is_yes(line: &str) -> (r: bool)
    ensures
        r == says_yes(line@),
{
    let t = trim(line);
    let l = to_lower(t.as_str());
    same(l.as_str(), "y")
}

/// What to do with staged changes.
#[derive(Debug, Clone, Copy, PartialEq, Eq, Structural)]
pub enum Choice {
    Commit,
    Abort,
    /// Anything else: keep them staged, or stop.
    Other,
}

/// What an answer chooses.
pub open spec fn chosen(line: Seq<char>) -> Choice {
    let a = lowered(trimmed(line));
    if a == "c"@ || a == "commit"@ {
        Choice::Commit
    } else if a == "a"@ || a == "abort"@ {
        Choice::Abort
    } else {
        Choice::Other
    }
}

/// What an answer chooses: `c` or `commit`, `a` or `abort`, or something else.
pub fn parse_choice(line: &str) -> (r: Choice)
    ensures
        r == chosen(line@),
{
    let t = trim(line);
    let a = to_lower(t.as_str());
    if same(a.as_str(), "c") || same(a.as_str(), "commit") {
        Choice::Commit
    } else if same(a.as_str(), "a") || same(a.as_str(), "abort") {
        Choice::Abort
    } else {
        Choice::Other
    }
}

/// So many staged changes, in words.
pub open spec fn staged_changes(count: usize) -> Seq<char> {
    decimal(count as nat) + " staged change"@ + (if count == 1 {
        ""@
    } else {
        "s"@
    })
}

/// So many staged changes, in words.
pub fn count_staged(count: usize) -> (r: String)
    ensures
        r@ == staged_changes(count),
{
    to_decimal(count as u64).concat(" staged change").concat(plural(count))
}

/// What is said before staged changes are lost, where there are any.
pub fn staged_warning(count: usize) -> (r: Option<String>)
    ensures
        r is Some <==> count > 0,
        r matches Some(m) ==> m@ == "Warning: "@ + staged_changes(count) + " will be lost."@,
{
    if count == 0 {
        None
    } else {
        let s = count_staged(count);
        Some("Warning: ".to_owned().concat(s.as_str()).concat(" will be lost."))
    }
}

/// What is asked before staged changes are discarded, where there are any.
pub fn discard_question(count: usize) -> (r: Option<String>)
    ensures
        r is Some <==> count > 0,
        r matches Some(m) ==> m@ == "Discard "@ + staged_changes(count) + "? [y/N]:"@,
{
    if count == 0 {
        None
    } else {
        let s = count_staged(count);
        Some("Discard ".to_owned().concat(s.as_str()).concat("? [y/N]:"))
    }
}

// ── Names of checkpoints ─────────────────────────────────────────────

/// The decimal digits of `n` with zeros before them, at least `width` in all.
pub open spec fn padded(n: nat, width: nat) -> Seq<char> {
    let d = decimal(n);
    if d.len() < width {
        Seq::new((width - d.len()) as nat, |i: int| '0') + d
    } else {
        d
    }
}

/// Appends a number with zeros before it.
fn push_padded(s: &mut String, n: u64, width: usize)
    ensures
        final(s)@ == old(s)@ + padded(n as nat, width as nat),
{
    let ghost before = s@;
    let d = to_decimal(n);
    let len: usize = crate::text::chars_of(d.as_str()).len();
    let mut k: usize = len;
    assert(Seq::new(0nat, |i: int| '0') =~= Seq::<char>::empty());
    assert(before + Seq::new(0nat, |i: int| '0') =~= before);
    while k < width
        invariant
            len <= k,
            len == d@.len(),
            len < width ==> k <= width,
            len >= width ==> k == len,
            s@ == before + Seq::new((k - len) as nat, |i: int| '0'),
        decreases width - k,
    {
        s.push('0');
        proof {
            let a = Seq::new((k - len) as nat, |i: int| '0');
            let b = Seq::new((k + 1 - len) as nat, |i: int| '0');
            assert(b =~= a.push('0'));
            assert(before + b =~= (before + a).push('0'));
        }
        k += 1;
    }
    s.append(d.as_str());
    assert(s@ =~= before + padded(n as nat, width as nat));
}

/// A point in local time.
#[derive(Debug, Clone, Copy)]
pub struct LocalTime {
    pub year: u64,
    pub month: u64,
    pub day: u64,
    pub hour: u64,
    pub minute: u64,
    pub second: u64,
}

/// A name made of a point in time.
pub open spec fn time_name(prefix: Seq<char>, t: LocalTime) -> Seq<char> {
    prefix + padded(t.year as nat, 4) + padded(t.month as nat, 2) + padded(t.day as nat, 2) + "-"@
        + padded(t.hour as nat, 2) + padded(t.minute as nat, 2) + padded(t.second as nat, 2)
}

/// A name made of a point in time: the prefix, then the date and the time of day.
pub fn name_from_time(prefix: &str, t: LocalTime) -> (r: String)
    ensures
        r@ == time_name(prefix@, t),
{
    let mut s = prefix.to_owned();
    push_padded(&mut s, t.year, 4);
    push_padded(&mut s, t.month, 2);
    push_padded(&mut s, t.day, 2);
    s.append("-");
    push_padded(&mut s, t.hour, 2);
    push_padded(&mut s, t.minute, 2);
    push_padded(&mut s, t.second, 2);
    s
}

/// The name given, or one made of the time where none is given.
pub fn checkpoint_name(name: Option<&str>, prefix: &str, now: LocalTime) -> (r: String)
    ensures
        r@ == (match name {
            Some(n) => if n@.len() > 0 {
                n@
            } else {
                time_name(prefix@, now)
            },
            None => time_name(prefix@, now),
        }),
{
    match name {
        Some(n) => if !n.is_empty() {
            n.to_owned()
        } else {
            name_from_time(prefix, now)
        },
        None => name_from_time(prefix, now),
    }
}

// ── Commands to run ──────────────────────────────────────────────────

/// Chooses the command to run: the arguments given, or a shell.
pub fn choose_command(exec_args: &Vec<String>, shell: &str) -> (r: (String, Vec<String>))
    ensures
        exec_args@.len() == 0 ==> r.0@ == shell@ && r.1@.len() == 0,
        exec_args@.len() > 0 ==> r.0@ == exec_args@[0]@ && string_views(r.1@) == string_views(
            exec_args@,
        ).skip(1),
{
    let mut args: Vec<String> = Vec::new();
    if exec_args.len() == 0 {
        return (shell.to_owned(), args);
    }
    let ghost v = string_views(exec_args@);
    let mut i: usize = 1;
    while i < exec_args.len()
        invariant
            1 <= i <= exec_args@.len(),
            v == string_views(exec_args@),
            string_views(args@) == v.subrange(1, i as int),
        decreases exec_args@.len() - i,
    {
        let ghost before = args@;
        args.push(exec_args[i].clone());
        proof {
            assert(string_views(args@) =~= string_views(before).push(v[i as int]));
            assert(v.subrange(1, i + 1) =~= v.subrange(1, i as int).push(v[i as int]));
        }
        i += 1;
    }
    assert(v.subrange(1, v.len() as int) =~= v.skip(1));
    (exec_args[0].clone(), args)
}

/// The arguments in quotes.
pub open spec fn quoted(exec_args: Seq<Seq<char>>) -> Seq<Seq<char>> {
    Seq::new(exec_args.len(), |i: int| "\""@ + exec_args[i] + "\""@)
}

/// The arguments of a command for display: each in quotes, separated by commas.
pub fn quote_args(exec_args: &Vec<String>) -> (r: String)
    ensures
        r@ == separated(quoted(string_views(exec_args@)), ", "@),
{
    let ghost v = string_views(exec_args@);
    let mut out: Vec<String> = Vec::new();
    let mut i: usize = 0;
    assert(string_views(out@) =~= quoted(v.take(0)));
    while i < exec_args.len()
        invariant
            i <= exec_args@.len(),
            v == string_views(exec_args@),
            string_views(out@) == quoted(v.take(i as int)),
        decreases exec_args@.len() - i,
    {
        let ghost before = out@;
        let q = "\"".to_owned().concat(exec_args[i].as_str()).concat("\"");
        out.push(q);
        proof {
            assert(string_views(out@) =~= string_views(before).push(q@));
            assert(quoted(v.take(i + 1)) =~= quoted(v.take(i as int)).push(q@));
        }
        i += 1;
    }
    assert(v.take(v.len() as int) =~= v);
    join(&out, ", ")
}

/// The name of the checkpoint after a command.
pub open spec fn after_name(exec_args: Seq<Seq<char>>, shell: Seq<char>) -> Seq<char> {
    "after "@ + if exec_args.len() == 0 {
        shell
    } else {
        separated(exec_args, " "@)
    }
}

/// The name of the checkpoint after a command.
pub fn name_after_command(exec_args: &Vec<String>, shell: &str) -> (r: String)
    ensures
        r@ == after_name(string_views(exec_args@), shell@),
{
    if exec_args.len() == 0 {
        "after ".to_owned().concat(shell)
    } else {
        let words = join(exec_args, " ");
        "after ".to_owned().concat(words.as_str())
    }
}

/// The exit code to hand on: the low byte of that of the command, or 1 where a
/// signal ended it.
pub fn exit_code(status: Option<i32>) -> (r: u8)
    ensures
        r == (match status {
            Some(c) => (c as int % 256) as u8,
            None => 1u8,
        }),
{
    match status {
        Some(c) => {
            let m: i32 = if c >= 0 {
                c % 256
            } else {
                255 - ((-(c + 1)) % 256)
            };
            m as u8
        },
        None => 1,
    }
}

/// The process number that a text says, if it says one.
pub open spec fn pid_in(s: Seq<char>) -> Option<u32> {
    match number(trimmed(s)) {
        Some(n) => if n <= u32::MAX {
            Some(n as u32)
        } else {
            None
        },
        None => None,
    }
}

/// Reads the process number of the daemon.
pub fn parse_pid(content: &str) -> (r: Option<u32>)
    ensures
        r == pid_in(content@),
{
    let t = trim(content);
    match parse_number(t.as_str()) {
        Some(n) => if n <= u32::MAX as u64 {
            Some(n as u32)
        } else {
            None
        },
        None => None,
    }
}

/// What the helper process reports of an automatic checkpoint: whether one was
/// made, or nothing where it failed.
pub fn checkpoint_report(code: u8) -> (r: Option<bool>)
    ensures
        r == (if code == 0 {
            Some(false)
        } else if code == 1 {
            Some(true)
        } else {
            None
        }),
{
    if code == 0 {
        Some(false)
    } else if code == 1 {
        Some(true)
    } else {
        None
    }
}

// ── Putting staged inodes into base ──────────────────────────────────

/// The kind of a file, symbolic links not followed.
#[derive(Debug, Clone, Copy, PartialEq, Eq, Structural)]
pub enum FileKind {
    Regular,
    Directory,
    Symlink,
    Other,
}

/// How an existing file is taken away.
#[derive(Debug, Clone, Copy, PartialEq, Eq, Structural)]
pub enum Removal {
    Nothing,
    Tree,
    Single,
}

/// How a staged inode is put into base.
#[derive(Debug, Clone, Copy, PartialEq, Eq, Structural)]
pub enum Placement {
    /// Make a link with the same target.
    Link,
    /// Make a directory.
    Mkdir,
    /// Move the file.
    Move,
}

/// The steps by which a staged inode is put into base.
#[derive(Debug, Clone, Copy, PartialEq, Eq, Structural)]
pub struct ApplyPlan {
    pub remove: Removal,
    pub place: Placement,
    /// Whether the permissions of the file that was there are given to the new one.
    pub keep_permissions: bool,
}

/// How a file of that kind is taken away.
pub open spec fn removal_of(kind: FileKind) -> Removal {
    if kind == FileKind::Directory {
        Removal::Tree
    } else {
        Removal::Single
    }
}

/// The steps by which a staged inode is put where a file of some kind may be.
pub open spec fn apply_plan(staged: FileKind, existing: Option<FileKind>) -> ApplyPlan {
    ApplyPlan {
        remove: match existing {
            Some(k) => removal_of(k),
            None => Removal::Nothing,
        },
        place: match staged {
            FileKind::Symlink => Placement::Link,
            FileKind::Directory => Placement::Mkdir,
            _ => Placement::Move,
        },
        keep_permissions: staged == FileKind::Regular && existing == Some(FileKind::Regular),
    }
}

/// Works out how a file of that kind is taken away: a directory with all that
/// is in it, anything else by itself.
pub fn plan_removal(kind: FileKind) -> (r: Removal)
    ensures
        r == removal_of(kind),
{
    match kind {
        FileKind::Directory => Removal::Tree,
        _ => Removal::Single,
    }
}

/// Works out how a staged inode is put into base. What is there goes first; a
/// regular file that replaces a regular file keeps its permissions.
pub fn plan_apply(staged: FileKind, existing: Option<FileKind>) -> (r: ApplyPlan)
    ensures
        r == apply_plan(staged, existing),
{
    let remove: Removal = match existing {
        Some(k) => plan_removal(k),
        None => Removal::Nothing,
    };
    let place: Placement = match staged {
        FileKind::Symlink => Placement::Link,
        FileKind::Directory => Placement::Mkdir,
        _ => Placement::Move,
    };
    let was_regular: bool = match existing {
        Some(FileKind::Regular) => true,
        _ => false,
    };
    let keep_permissions: bool = was_regular && match staged {
        FileKind::Regular => true,
        _ => false,
    };
    ApplyPlan { remove, place, keep_permissions }
}

// ── What carrying a plan out leaves ──────────────────────────────────

/// A file: what it is, what it holds and who may use it.
pub struct FileValue {
    pub kind: FileKind,
    pub content: int,
    pub permissions: int,
}

/// What is left once a file has been taken away; `None` where that fails. A
/// tree can be taken away only where there is a directory, and a single file
/// only where there is something else.
pub open spec fn after_removal(how: Removal, there: Option<FileValue>) -> Option<
    Option<FileValue>,
> {
    match how {
        Removal::Nothing => Some(there),
        Removal::Tree => match there {
            Some(f) if f.kind is Directory => Some(None),
            _ => None,
        },
        Removal::Single => match there {
            Some(f) if !(f.kind is Directory) => Some(None),
            _ => None,
        },
    }
}

/// What is there once a staged file has been put where nothing is; `None`
/// where that fails. A link takes its target from a link, a directory is made
/// empty, and a move may have to copy, which makes neither a link nor a directory.
pub open spec fn after_placement(
    how: Placement,
    staged: FileValue,
    there: Option<FileValue>,
    fresh: FileValue,
) -> Option<FileValue> {
    if there is Some {
        None
    } else {
        match how {
            Placement::Link => if staged.kind is Symlink {
                Some(staged)
            } else {
                None
            },
            Placement::Mkdir => Some(FileValue { kind: FileKind::Directory, ..fresh }),
            Placement::Move => if staged.kind is Symlink || staged.kind is Directory {
                None
            } else {
                Some(staged)
            },
        }
    }
}

/// What is there once a plan has been carried out; `None` where that fails.
pub open spec fn after_plan(
    plan: ApplyPlan,
    staged: FileValue,
    there: Option<FileValue>,
    fresh: FileValue,
) -> Option<FileValue> {
    match after_removal(plan.remove, there) {
        Some(left) => match after_placement(plan.place, staged, left, fresh) {
            Some(f) => match there {
                Some(was) if plan.keep_permissions => Some(
                    FileValue { permissions: was.permissions, ..f },
                ),
                _ => Some(f),
            },
            None => None,
        },
        None => None,
    }
}

/// Taking away what is there by its kind leaves nothing, and does not fail.
pub proof fn law_removal_takes_away(there: FileValue)
    ensures
        after_removal(removal_of(there.kind), Some(there)) == Some(None::<FileValue>),
{
}

/// Putting a staged file into base does not fail, whatever was there, and
/// leaves a file of its kind and content. Permissions are those of the staged
/// file, unless a regular file takes the place of a regular file.
pub proof fn law_plan_gives_staged(
    staged: FileValue,
    there: Option<FileValue>,
    fresh: FileValue,
)
    ensures
        ({
            let kind = match there {
                Some(f) => Some(f.kind),
                None => None,
            };
            let f = after_plan(apply_plan(staged.kind, kind), staged, there, fresh);
            &&& f is Some
            &&& (f->0).kind == staged.kind
            &&& !(staged.kind is Directory) ==> (f->0).content == staged.content
                && (f->0).permissions == match there {
                Some(was) => if was.kind is Regular && staged.kind is Regular {
                    was.permissions
                } else {
                    staged.permissions
                },
                None => staged.permissions,
            }
        }),
{
}

/// How a staged file is placed depends on what it is alone: a link is made
/// only of a link, a directory only of a directory, and all else is moved.
pub proof fn law_placement_is_by_kind(
    staged: FileKind,
    there: Option<FileKind>,
    other: Option<FileKind>,
)
    ensures
        apply_plan(staged, there).place == apply_plan(staged, other).place,
        apply_plan(staged, there).place is Link <==> staged is Symlink,
        apply_plan(staged, there).place is Mkdir <==> staged is Directory,
        apply_plan(staged, there).place is Move <==> staged is Regular || staged is Other,
        apply_plan(staged, there).remove is Nothing <==> there is None,
        apply_plan(staged, there).remove is Tree <==> there == Some(FileKind::Directory),
{
}

// ── Answers ──────────────────────────────────────────────────────────

/// Only the letter `y` by itself means yes, in either case and whatever
/// whitespace is around it. Anything else, and no answer at all, means no.
pub proof fn law_yes_is_y(line: Seq<char>)
    ensures
        says_yes(line) <==> trimmed(line) == seq!['y'] || trimmed(line) == seq!['Y'],
{
    reveal_strlit("y");
    let t = trimmed(line);
    assert("y"@ =~= seq!['y']);
    if says_yes(line) {
        assert(t.len() == 1);
        assert(lowered(t)[0] == lower(t[0]));
        lemma_lower(t[0]);
        assert(t =~= seq![t[0]]);
    }
    if t == seq!['Y'] || t == seq!['y'] {
        lemma_lower(t[0]);
        assert(lowered(t) =~= seq!['y']);
    }
}

proof fn lemma_lower(c: char)
    ensures
        lower(c) == 'y' <==> c == 'y' || c == 'Y',
        lower(c) == 'c' <==> c == 'c' || c == 'C',
        lower(c) == 'a' <==> c == 'a' || c == 'A',
{
    if 'A' <= c && c <= 'Z' {
        let n = (c as u32 + 32) as u8;
        assert(lower(c) == n as char);
    }
}

/// Staged changes are committed only on an answer that begins with `c` and
/// discarded only on one that begins with `a`; the single letters do. Without
/// an answer neither is done.
pub proof fn law_choices_are_told_apart(line: Seq<char>)
    ensures
        chosen(line) is Commit ==> trimmed(line).len() > 0 && (trimmed(line)[0] == 'c'
            || trimmed(line)[0] == 'C'),
        chosen(line) is Abort ==> trimmed(line).len() > 0 && (trimmed(line)[0] == 'a'
            || trimmed(line)[0] == 'A'),
        trimmed(line).len() == 0 ==> chosen(line) is Other,
        trimmed(line) == seq!['c'] || trimmed(line) == seq!['C'] ==> chosen(line) is Commit,
        trimmed(line) == seq!['a'] || trimmed(line) == seq!['A'] ==> chosen(line) is Abort,
{
    reveal_strlit("c");
    reveal_strlit("commit");
    reveal_strlit("a");
    reveal_strlit("abort");
    let t = trimmed(line);
    let l = lowered(t);
    assert("c"@ =~= seq!['c'] && "a"@ =~= seq!['a']);
    assert("commit"@[0] == 'c' && "commit"@.len() == 6);
    assert("abort"@[0] == 'a' && "abort"@.len() == 5);
    if t.len() > 0 {
        assert(l[0] == lower(t[0]));
        lemma_lower(t[0]);
    }
    if t.len() == 1 {
        assert(l =~= seq![lower(t[0])]);
    }
}

// ── Names from the time ──────────────────────────────────────────────

proof fn lemma_zeros(k: nat, d: Seq<char>)
    ensures
        digits_value(Seq::new(k, |i: int| '0') + d) == digits_value(d),
    decreases d.len(), k,
{
    let z = Seq::new(k, |i: int| '0');
    if d.len() > 0 {
        lemma_zeros(k, d.drop_last());
        assert((z + d).drop_last() =~= z + d.drop_last());
    } else if k > 0 {
        let y = Seq::new((k - 1) as nat, |i: int| '0');
        lemma_zeros((k - 1) as nat, d);
        assert((z + d).drop_last() =~= y + d);
        assert((z + d).last() == '0');
    }
}

/// A number with zeros before it is still that number, in as many places as
/// are asked for.
pub proof fn law_padding_keeps_number(n: nat, m: nat, width: nat)
    ensures
        padded(n, width).len() >= width,
        decimal(n).len() <= width ==> padded(n, width).len() == width,
        padded(n, width) == padded(m, width) ==> n == m,
{
    lemma_padded_value(n, width);
    lemma_padded_value(m, width);
}

proof fn lemma_padded_value(n: nat, width: nat)
    ensures
        digits_value(padded(n, width)) == n,
{
    law_decimal_has_value(n);
    if decimal(n).len() < width {
        lemma_zeros((width - decimal(n).len()) as nat, decimal(n));
    }
}

/// The time has a year of four places at most and two places for the rest.
pub open spec fn is_usual(t: LocalTime) -> bool {
    t.year < 10000 && t.month < 100 && t.day < 100 && t.hour < 100 && t.minute < 100 && t.second
        < 100
}

proof fn lemma_places(n: nat)
    ensures
        n < 100 ==> decimal(n).len() <= 2,
        n < 10000 ==> decimal(n).len() <= 4,
{
    reveal_with_fuel(decimal, 5);
}

/// Names made of different times differ: each part of the time has its place.
pub proof fn law_time_names_differ(prefix: Seq<char>, s: LocalTime, t: LocalTime)
    requires
        is_usual(s),
        is_usual(t),
        time_name(prefix, s) == time_name(prefix, t),
    ensures
        s == t,
{
    lemma_time_places(prefix, s);
    lemma_time_places(prefix, t);
    law_padding_keeps_number(s.year as nat, t.year as nat, 4);
    law_padding_keeps_number(s.month as nat, t.month as nat, 2);
    law_padding_keeps_number(s.day as nat, t.day as nat, 2);
    law_padding_keeps_number(s.hour as nat, t.hour as nat, 2);
    law_padding_keeps_number(s.minute as nat, t.minute as nat, 2);
    law_padding_keeps_number(s.second as nat, t.second as nat, 2);
}

/// Where each part of the time stands in a name: the year first and the
/// seconds last, with a dash between the date and the time of day.
pub open spec fn has_places(name: Seq<char>, n: int, t: LocalTime) -> bool {
    &&& name.len() == n + 15
    &&& name.subrange(n, n + 4) == padded(t.year as nat, 4)
    &&& name.subrange(n + 4, n + 6) == padded(t.month as nat, 2)
    &&& name.subrange(n + 6, n + 8) == padded(t.day as nat, 2)
    &&& name[n + 8] == '-'
    &&& name.subrange(n + 9, n + 11) == padded(t.hour as nat, 2)
    &&& name.subrange(n + 11, n + 13) == padded(t.minute as nat, 2)
    &&& name.subrange(n + 13, n + 15) == padded(t.second as nat, 2)
}

proof fn lemma_time_places(prefix: Seq<char>, t: LocalTime)
    requires
        is_usual(t),
    ensures
        has_places(time_name(prefix, t), prefix.len() as int, t),
{
    lemma_places(t.year as nat);
    lemma_places(t.month as nat);
    lemma_places(t.day as nat);
    lemma_places(t.hour as nat);
    lemma_places(t.minute as nat);
    lemma_places(t.second as nat);
    law_padding_keeps_number(t.year as nat, 0, 4);
    law_padding_keeps_number(t.month as nat, 0, 2);
    law_padding_keeps_number(t.day as nat, 0, 2);
    law_padding_keeps_number(t.hour as nat, 0, 2);
    law_padding_keeps_number(t.minute as nat, 0, 2);
    law_padding_keeps_number(t.second as nat, 0, 2);
    reveal_strlit("-");
    let n = prefix.len() as int;
    let name = time_name(prefix, t);
    assert(name.subrange(n, n + 4) =~= padded(t.year as nat, 4));
    assert(name.subrange(n + 4, n + 6) =~= padded(t.month as nat, 2));
    assert(name.subrange(n + 6, n + 8) =~= padded(t.day as nat, 2));
    assert(name.subrange(n + 9, n + 11) =~= padded(t.hour as nat, 2));
    assert(name.subrange(n + 11, n + 13) =~= padded(t.minute as nat, 2));
    assert(name.subrange(n + 13, n + 15) =~= padded(t.second as nat, 2));
}

} // verus!
