//! Resolving the log: replaying records into the final change of each path.
//!
//! - A path that is added and deleted again cancels out.
//! - A deletion of `old` and a redirect of `new` to `old` make up a rename.
//! - Redirects chain: one of `b` to `a` and one of `c` to `b` rename `a` to `c`.
//! - Of several records for one path only the final state counts.
use super::types::{Checkpoint, Record};
use crate::dtype::{kind_or_file, DType};
use crate::error::Error;
use crate::pathmap::{entries_map, sorted_keys, PathMap};
use crate::text::same;
use vstd::prelude::*;

verus! {

/// The final effect of replaying the log.
#[derive(Debug)]
pub enum Change {
    Added { path: String, ino: u64, dtype: DType },
    Modified { path: String, ino: u64, dtype: DType },
    Deleted(String),
    Renamed { from: String, to: String, dtype: DType },
    /// A rename over a path that exists.
    Replaced { from: String, to: String, dtype: DType },
}

impl Change {
    /// The staged inode, where the change carries one.
    pub open spec fn inode(self) -> Option<u64> {
        match self {
            Change::Added { ino, .. } => Some(ino),
            Change::Modified { ino, .. } => Some(ino),
            _ => None,
        }
    }

    /// True when the change is about `p`, as its source or its destination.
    pub open spec fn is_about(self, p: Seq<char>) -> bool {
        match self {
            Change::Added { path, .. } => path@ == p,
            Change::Modified { path, .. } => path@ == p,
            Change::Deleted(path) => path@ == p,
            Change::Renamed { from, to, .. } => from@ == p || to@ == p,
            Change::Replaced { from, to, .. } => from@ == p || to@ == p,
        }
    }

    /// The staged inode, where the change carries one.
    pub fn ino(&self) -> (r: Option<u64>)
        ensures
            r == self.inode(),
    {
        match self {
            Change::Added { ino, .. } => Some(*ino),
            Change::Modified { ino, .. } => Some(*ino),
            _ => None,
        }
    }

    /// True when the change is about the path, as its source or its destination.
    pub fn matches_path(&self, target: &str) -> (r: bool)
        ensures
            r == self.is_about(target@),
    {
        match self {
            Change::Added { path, .. } => same(path.as_str(), target),
            Change::Modified { path, .. } => same(path.as_str(), target),
            Change::Deleted(path) => same(path.as_str(), target),
            Change::Renamed { from, to, .. } => same(from.as_str(), target) || same(
                to.as_str(),
                target,
            ),
            Change::Replaced { from, to, .. } => same(from.as_str(), target) || same(
                to.as_str(),
                target,
            ),
        }
    }
}

/// What is to be done at a path.
#[allow(inconsistent_fields)]
#[derive(Debug)]
pub enum Staged {
    /// Write the staged inode; `is_new` where the path is not in base.
    Stage { ino: u64, dtype: DType, is_new: bool },
    /// Remove from base.
    Delete,
    /// Rename from `origin`, and write the staged inode where there is one;
    /// `overwrites` where the path is in base.
    Rename { origin: String, dtype: DType, ino: Option<u64>, overwrites: bool },
}

impl Clone for Staged {
    fn clone(&self) -> (r: Self)
        ensures
            r == *self,
    {
        match self {
            Staged::Stage { ino, dtype, is_new } => Staged::Stage {
                ino: *ino,
                dtype: *dtype,
                is_new: *is_new,
            },
            Staged::Delete => Staged::Delete,
            Staged::Rename { origin, dtype, ino, overwrites } => Staged::Rename {
                origin: origin.clone(),
                dtype: *dtype,
                ino: *ino,
                overwrites: *overwrites,
            },
        }
    }
}

// ── The state and its steps ──────────────────────────────────────────

/// What is to be done at each path.
pub type State = Map<Seq<char>, Staged>;

/// What is to be done at `p`.
pub open spec fn at_path(m: State, p: Seq<char>) -> Option<Staged> {
    if m.contains_key(p) {
        Some(m[p])
    } else {
        None
    }
}

/// The state after `p` is written. A write to a renamed path stays a rename,
/// and one to a deleted path is a modification.
pub open spec fn after_write(
    m: State,
    p: Seq<char>,
    dtype: Option<DType>,
    ino: u64,
    is_new: bool,
) -> State {
    let dtype = kind_or_file(dtype);
    m.insert(
        p,
        match at_path(m, p) {
            Some(Staged::Rename { origin, overwrites, .. }) => Staged::Rename {
                origin,
                dtype,
                ino: Some(ino),
                overwrites,
            },
            Some(Staged::Delete) => Staged::Stage { ino, dtype, is_new: false },
            _ => Staged::Stage { ino, dtype, is_new },
        },
    )
}

/// The state after `p` is deleted. A new path vanishes, and a renamed path
/// leaves its origin deleted.
pub open spec fn after_delete(m: State, p: Seq<char>) -> State {
    match at_path(m, p) {
        Some(Staged::Stage { is_new: true, .. }) => m.remove(p),
        Some(Staged::Rename { origin, .. }) => m.remove(p).insert(origin@, Staged::Delete),
        _ => m.insert(p, Staged::Delete),
    }
}

/// The state after whatever was at `p` is overwritten.
pub open spec fn overwritten(m: State, p: Seq<char>) -> State {
    match at_path(m, p) {
        Some(Staged::Rename { origin, .. }) => m.remove(p).insert(origin@, Staged::Delete),
        _ => m.remove(p),
    }
}

/// The state after `p` is redirected to `base`. The deletion of `base` that
/// comes before a redirect is part of it; staged content moves along, and a
/// redirect to a redirect goes to where that one goes.
pub open spec fn after_redirect(
    m: State,
    p: Seq<char>,
    dtype: Option<DType>,
    base: String,
    overwrites: bool,
) -> State {
    let kind = kind_or_file(dtype);
    let m1 = overwritten(m, p);
    match at_path(m1, base@) {
        Some(Staged::Stage { ino, dtype: d, is_new }) => {
            let m2 = if is_new {
                m1.remove(base@)
            } else {
                m1.insert(base@, Staged::Delete)
            };
            m2.insert(
                p,
                Staged::Rename { origin: base, dtype: d, ino: Some(ino), overwrites },
            )
        },
        Some(Staged::Rename { origin, dtype: d, ino, .. }) => m1.remove(base@).insert(
            p,
            Staged::Rename {
                origin,
                dtype: if ino is Some {
                    d
                } else {
                    kind
                },
                ino,
                overwrites,
            },
        ),
        _ => m1.remove(base@).insert(
            p,
            Staged::Rename { origin: base, dtype: kind, ino: None, overwrites },
        ),
    }
}

/// The state after one record. Checkpoints and restores change nothing.
pub open spec fn after_record(m: State, r: Record) -> State {
    match r {
        Record::Added { path, dtype, ino } => after_write(m, path@, dtype, ino, true),
        Record::Modified { path, dtype, ino } => after_write(m, path@, dtype, ino, false),
        Record::Deleted { path } => after_delete(m, path@),
        Record::Redirect { path, dtype, base } => after_redirect(m, path@, dtype, base, false),
        Record::Replace { path, dtype, base } => after_redirect(m, path@, dtype, base, true),
        Record::Checkpoint(_) => m,
        Record::Restore { .. } => m,
    }
}

/// The state after a sequence of records, from nothing.
pub open spec fn replayed(s: Seq<Record>) -> State
    decreases s.len(),
{
    if s.len() == 0 {
        Map::empty()
    } else {
        after_record(replayed(s.drop_last()), s.last())
    }
}

// ── Changes ──────────────────────────────────────────────────────────

/// The rename at a path, if there is one.
pub open spec fn rename_at(e: (String, Staged)) -> Option<Change> {
    match e.1 {
        Staged::Rename { origin, dtype, overwrites, .. } => if origin@ == e.0@ {
            None
        } else if overwrites {
            Some(Change::Replaced { from: origin, to: e.0, dtype })
        } else {
            Some(Change::Renamed { from: origin, to: e.0, dtype })
        },
        _ => None,
    }
}

/// The write at a path, if there is one.
pub open spec fn write_at(e: (String, Staged)) -> Option<Change> {
    match e.1 {
        Staged::Stage { ino, dtype, is_new } => if is_new {
            Some(Change::Added { path: e.0, ino, dtype })
        } else {
            Some(Change::Modified { path: e.0, ino, dtype })
        },
        Staged::Rename { dtype, ino: Some(ino), .. } => Some(
            Change::Modified { path: e.0, ino, dtype },
        ),
        _ => None,
    }
}

/// The deletion at a path, if there is one.
pub open spec fn delete_at(e: (String, Staged)) -> Option<Change> {
    match e.1 {
        Staged::Delete => Some(Change::Deleted(e.0)),
        _ => None,
    }
}

/// What `f` gives for the first `n` entries, in order.
pub open spec fn gathered(
    s: Seq<(String, Staged)>,
    n: int,
    f: spec_fn((String, Staged)) -> Option<Change>,
) -> Seq<Change>
    decreases n,
{
    if n <= 0 {
        Seq::empty()
    } else {
        match f(s[n - 1]) {
            Some(c) => gathered(s, n - 1, f).push(c),
            None => gathered(s, n - 1, f),
        }
    }
}

/// The changes of a state whose entries are listed: renames, then writes,
/// then deletions, each in the order of the list.
pub open spec fn listed(s: Seq<(String, Staged)>) -> Seq<Change> {
    let n = s.len() as int;
    gathered(s, n, |e: (String, Staged)| rename_at(e)) + gathered(
        s,
        n,
        |e: (String, Staged)| write_at(e),
    ) + gathered(s, n, |e: (String, Staged)| delete_at(e))
}

/// The changes are those of the state, with the paths in byte order.
pub open spec fn are_changes_of(c: Seq<Change>, m: State) -> bool {
    exists|s: Seq<(String, Staged)>| #[trigger]
        sorted_keys(s) && entries_map(s) == m && c == listed(s)
}

/// True when the state says that nothing changes.
pub open spec fn silent(m: State) -> bool {
    forall|p: Seq<char>| #[trigger]
        m.contains_key(p) ==> match m[p] {
            Staged::Rename { origin, ino, .. } => origin@ == p && ino is None,
            _ => false,
        }
}

/// Resolves records one at a time.
#[derive(Debug)]
pub struct Resolver {
    pub state: PathMap<Staged>,
}

impl Clone for Resolver {
    fn clone(&self) -> (r: Self)
        ensures
            r.state@ == self.state@,
    {
        let entries = self.state.entries();
        let ghost s = entries@;
        let mut state: PathMap<Staged> = PathMap::new();
        let mut i: usize = 0;
        while i < entries.len()
            invariant
                i <= entries@.len(),
                s == entries@,
                state@ == entries_map(s.take(i as int)),
            decreases entries@.len() - i,
        {
            proof {
                assert(s.take(i + 1).drop_last() =~= s.take(i as int));
            }
            state.insert(entries[i].0.clone(), entries[i].1.clone());
            i += 1;
        }
        proof {
            assert(s.take(s.len() as int) =~= s);
        }
        Resolver { state }
    }
}

impl Resolver {
    pub fn new() -> (r: Self)
        ensures
            r.state@ == Map::<Seq<char>, Staged>::empty(),
    {
        Resolver { state: PathMap::new() }
    }

    fn process_stage(&mut self, path: String, dtype: Option<DType>, ino: u64, is_new: bool)
        ensures
            final(self).state@ == after_write(old(self).state@, path@, dtype, ino, is_new),
    {
        let dtype: DType = DType::or_file(dtype);
        let ghost m = self.state@;
        let p: Ghost<Seq<char>> = Ghost(path@);
        match self.state.remove(path.as_str()) {
            Some(Staged::Rename { origin, overwrites, .. }) => {
                self.state.insert(
                    path,
                    Staged::Rename { origin, dtype, ino: Some(ino), overwrites },
                );
            },
            Some(Staged::Delete) => {
                self.state.insert(path, Staged::Stage { ino, dtype, is_new: false });
            },
            _ => {
                self.state.insert(path, Staged::Stage { ino, dtype, is_new });
            },
        }
        proof {
            assert(self.state@ =~= m.insert(p@, self.state@[p@]));
        }
    }

    fn process_delete(&mut self, path: String)
        ensures
            final(self).state@ == after_delete(old(self).state@, path@),
    {
        let ghost m = self.state@;
        match self.state.remove(path.as_str()) {
            Some(Staged::Stage { is_new: true, .. }) => {},
            Some(Staged::Rename { origin, .. }) => {
                self.state.insert(origin, Staged::Delete);
            },
            _ => {
                proof {
                    assert(m.remove(path@).insert(path@, Staged::Delete) =~= m.insert(
                        path@,
                        Staged::Delete,
                    ));
                }
                self.state.insert(path, Staged::Delete);
            },
        }
    }

    fn process_redirect(
        &mut self,
        path: String,
        dtype: Option<DType>,
        base: String,
        overwrites: bool,
    )
        ensures
            final(self).state@ == after_redirect(
                old(self).state@,
                path@,
                dtype,
                base,
                overwrites,
            ),
    {
        let kind: DType = DType::or_file(dtype);
        // Overwrite whatever was at the destination.
        if let Some(Staged::Rename { origin, .. }) = self.state.remove(path.as_str()) {
            self.state.insert(origin, Staged::Delete);
        }
        let ghost m1 = self.state@;
        match self.state.remove(base.as_str()) {
            Some(Staged::Stage { ino, dtype: d, is_new }) => {
                if !is_new {
                    self.state.insert(base.clone(), Staged::Delete);
                    proof {
                        assert(self.state@ =~= m1.insert(base@, Staged::Delete));
                    }
                }
                self.state.insert(
                    path,
                    Staged::Rename { origin: base, dtype: d, ino: Some(ino), overwrites },
                );
            },
            Some(Staged::Rename { origin, dtype: d, ino, .. }) => {
                let dtype: DType = if ino.is_some() {
                    d
                } else {
                    kind
                };
                self.state.insert(path, Staged::Rename { origin, dtype, ino, overwrites });
            },
            _ => {
                self.state.insert(
                    path,
                    Staged::Rename { origin: base, dtype: kind, ino: None, overwrites },
                );
            },
        }
    }

    /// Takes one record in.
    pub fn process(&mut self, record: Record)
        ensures
            final(self).state@ == after_record(old(self).state@, record),
    {
        match record {
            Record::Added { path, dtype, ino } => self.process_stage(path, dtype, ino, true),
            Record::Modified { path, dtype, ino } => self.process_stage(path, dtype, ino, false),
            Record::Deleted { path } => self.process_delete(path),
            Record::Redirect { path, dtype, base } => self.process_redirect(
                path,
                dtype,
                base,
                false,
            ),
            Record::Replace { path, dtype, base } => self.process_redirect(
                path,
                dtype,
                base,
                true,
            ),
            Record::Checkpoint(_) | Record::Restore { .. } => {},
        }
    }

    /// The final changes: renames, then writes, then deletions, the paths in
    /// byte order.
    pub fn into_changes(self) -> (r: Vec<Change>)
        ensures
            are_changes_of(r@, self.state@),
            (r@.len() == 0) == silent(self.state@),
    {
        let ghost m = self.state@;
        let entries = self.state.into_entries();
        let ghost s = entries@;
        let ghost fr = |e: (String, Staged)| rename_at(e);
        let ghost fw = |e: (String, Staged)| write_at(e);
        let ghost fd = |e: (String, Staged)| delete_at(e);
        let mut renames: Vec<Change> = Vec::new();
        let mut writes: Vec<Change> = Vec::new();
        let mut deletes: Vec<Change> = Vec::new();
        for e in it: entries
            invariant
                it.seq() == s,
                fr == (|e: (String, Staged)| rename_at(e)),
                fw == (|e: (String, Staged)| write_at(e)),
                fd == (|e: (String, Staged)| delete_at(e)),
                renames@ == gathered(s, it.index() as int, fr),
                writes@ == gathered(s, it.index() as int, fw),
                deletes@ == gathered(s, it.index() as int, fd),
        {
            let (path, staged) = e;
            emit_action(&mut renames, &mut writes, &mut deletes, path, staged);
        }
        let ghost (a, b, c) = (renames@, writes@, deletes@);
        renames.append(&mut writes);
        renames.append(&mut deletes);
        proof {
            assert(renames@ =~= a + b + c);
            assert(renames@ == listed(s));
            lemma_silent(s, m);
        }
        renames
    }
}

/// Adds the changes of one path to the lists.
fn emit_action(
    renames: &mut Vec<Change>,
    writes: &mut Vec<Change>,
    deletes: &mut Vec<Change>,
    path: String,
    staged: Staged,
)
    ensures
        final(renames)@ == (match rename_at((path, staged)) {
            Some(c) => old(renames)@.push(c),
            None => old(renames)@,
        }),
        final(writes)@ == (match write_at((path, staged)) {
            Some(c) => old(writes)@.push(c),
            None => old(writes)@,
        }),
        final(deletes)@ == (match delete_at((path, staged)) {
            Some(c) => old(deletes)@.push(c),
            None => old(deletes)@,
        }),
{
    match staged {
        Staged::Stage { ino, dtype, is_new } => {
            if is_new {
                writes.push(Change::Added { path, ino, dtype });
            } else {
                writes.push(Change::Modified { path, ino, dtype });
            }
        },
        Staged::Delete => {
            deletes.push(Change::Deleted(path));
        },
        Staged::Rename { origin, dtype, ino, overwrites } => {
            if origin != path {
                if overwrites {
                    renames.push(Change::Replaced { from: origin, to: path.clone(), dtype });
                } else {
                    renames.push(Change::Renamed { from: origin, to: path.clone(), dtype });
                }
            }
            if let Some(ino) = ino {
                writes.push(Change::Modified { path, ino, dtype });
            }
        },
    }
}

proof fn lemma_gathered_empty(
    s: Seq<(String, Staged)>,
    n: int,
    f: spec_fn((String, Staged)) -> Option<Change>,
)
    requires
        0 <= n <= s.len(),
    ensures
        (gathered(s, n, f).len() == 0) == (forall|i: int|
            0 <= i < n ==> f(#[trigger] s[i]) is None),
    decreases n,
{
    if n > 0 {
        lemma_gathered_empty(s, n - 1, f);
        if gathered(s, n, f).len() == 0 {
            assert forall|i: int| 0 <= i < n implies f(#[trigger] s[i]) is None by {}
        } else if f(s[n - 1]) is None {
            assert(!(forall|i: int| 0 <= i < n - 1 ==> f(#[trigger] s[i]) is None));
        }
    }
}

proof fn lemma_silent(s: Seq<(String, Staged)>, m: State)
    requires
        sorted_keys(s),
        entries_map(s) == m,
    ensures
        (listed(s).len() == 0) == silent(m),
{
    let n = s.len() as int;
    let fr = |e: (String, Staged)| rename_at(e);
    let fw = |e: (String, Staged)| write_at(e);
    let fd = |e: (String, Staged)| delete_at(e);
    lemma_gathered_empty(s, n, fr);
    lemma_gathered_empty(s, n, fw);
    lemma_gathered_empty(s, n, fd);
    crate::pathmap::lemma_entries_map(s);
    if listed(s).len() == 0 {
        assert forall|p: Seq<char>| #[trigger] m.contains_key(p) implies match m[p] {
            Staged::Rename { origin, ino, .. } => origin@ == p && ino is None,
            _ => false,
        } by {
            let i = choose|i: int| 0 <= i < s.len() && (#[trigger] s[i]).0@ == p;
            assert(fr(s[i]) is None && fw(s[i]) is None && fd(s[i]) is None);
        }
    }
    if silent(m) {
        assert forall|i: int| 0 <= i < n implies fr(#[trigger] s[i]) is None && fw(s[i]) is None
            && fd(s[i]) is None by {
            assert(m.contains_key(s[i].0@));
        }
    }
}

/// Resolves records into their final changes.
pub fn resolve(records: Vec<Record>) -> (r: Result<Vec<Change>, Error>)
    ensures
        r is Ok,
        are_changes_of((r->Ok_0)@, replayed(records@)),
        ((r->Ok_0)@.len() == 0) == silent(replayed(records@)),
{
    let ghost s = records@;
    let mut resolver = Resolver::new();
    for record in it: records
        invariant
            it.seq() == s,
            resolver.state@ == replayed(s.take(it.index() as int)),
    {
        proof {
            let k = it.index() as int;
            assert(s.take(k + 1).drop_last() =~= s.take(k));
        }
        resolver.process(record);
    }
    proof {
        assert(s.take(s.len() as int) =~= s);
    }
    Ok(resolver.into_changes())
}

// ── Segments ─────────────────────────────────────────────────────────

/// The changes between two checkpoints.
#[derive(Debug)]
pub struct Segment {
    /// The checkpoint at the start.
    pub from: Checkpoint,
    /// The checkpoint at the end; `None` for changes after the last checkpoint.
    pub to: Option<Checkpoint>,
    pub changes: Vec<Change>,
}

/// The positions of the checkpoints among the first `n` records, in order.
pub open spec fn checkpoints(s: Seq<Record>, n: int) -> Seq<int>
    decreases n,
{
    if n <= 0 {
        Seq::empty()
    } else if s[n - 1] is Checkpoint {
        checkpoints(s, n - 1).push(n - 1)
    } else {
        checkpoints(s, n - 1)
    }
}

/// The segment holds the changes from the `k`-th checkpoint to the next.
pub open spec fn spans(seg: Segment, s: Seq<Record>, k: int) -> bool {
    let c = checkpoints(s, s.len() as int);
    &&& s[c[k]] == Record::Checkpoint(seg.from)
    &&& seg.to is Some
    &&& s[c[k + 1]] == Record::Checkpoint(seg.to->0)
    &&& are_changes_of(seg.changes@, replayed(s.subrange(c[k] + 1, c[k + 1])))
}

/// The segment holds the changes after the last checkpoint.
pub open spec fn trails(seg: Segment, s: Seq<Record>) -> bool {
    let c = checkpoints(s, s.len() as int);
    &&& s[c.last()] == Record::Checkpoint(seg.from)
    &&& seg.to is None
    &&& are_changes_of(seg.changes@, replayed(s.skip(c.last() + 1)))
}

/// True when the changes after the last checkpoint make a segment of their
/// own: after an only checkpoint whenever there are records, else only where
/// they come to something.
pub open spec fn has_trailing(s: Seq<Record>) -> bool {
    let c = checkpoints(s, s.len() as int);
    let tail = s.skip(c.last() + 1);
    if c.len() == 0 {
        false
    } else if c.len() == 1 {
        tail.len() > 0
    } else {
        !silent(replayed(tail))
    }
}

/// The segments are those of the log: one for each two checkpoints in a row,
/// and one for what follows the last checkpoint where that counts.
pub open spec fn are_segments_of(r: Seq<Segment>, s: Seq<Record>) -> bool {
    let c = checkpoints(s, s.len() as int);
    let pairs = if c.len() == 0 {
        0
    } else {
        c.len() - 1
    };
    &&& r.len() == pairs + if has_trailing(s) {
        1int
    } else {
        0
    }
    &&& forall|k: int| 0 <= k < pairs ==> spans(#[trigger] r[k], s, k)
    &&& has_trailing(s) ==> trails(r.last(), s)
}

proof fn lemma_checkpoints(s: Seq<Record>, n: int)
    requires
        0 <= n <= s.len(),
    ensures
        forall|k: int|
            0 <= k < checkpoints(s, n).len() ==> 0 <= (#[trigger] checkpoints(s, n)[k]) < n
                && s[checkpoints(s, n)[k]] is Checkpoint,
        n > 0 && s[n - 1] is Checkpoint ==> checkpoints(s, n).len() > 0 && checkpoints(
            s,
            n,
        ).last() == n - 1,
    decreases n,
{
    if n > 0 {
        lemma_checkpoints(s, n - 1);
    }
}

proof fn lemma_checkpoints_prefix(s: Seq<Record>, n: int, m: int)
    requires
        0 <= n <= m <= s.len(),
    ensures
        checkpoints(s, n).len() <= checkpoints(s, m).len(),
        forall|k: int|
            0 <= k < checkpoints(s, n).len() ==> #[trigger] checkpoints(s, n)[k] == checkpoints(
                s,
                m,
            )[k],
    decreases m - n,
{
    if n < m {
        lemma_checkpoints_prefix(s, n, m - 1);
    }
}

/// Resolves the log into the changes between its checkpoints. Records before
/// the first checkpoint are skipped.
pub fn resolve_segments(records: Vec<Record>) -> (r: Result<Vec<Segment>, Error>)
    ensures
        r is Ok,
        are_segments_of((r->Ok_0)@, records@),
{
    let ghost s = records@;
    let ghost all = checkpoints(s, s.len() as int);
    let mut segments: Vec<Segment> = Vec::new();
    let mut resolver = Resolver::new();
    let mut prev: Option<Checkpoint> = None;
    let mut trailing: bool = false;
    let mut many: bool = false;
    assert(checkpoints(s, 0).len() == 0);
    for record in it: records
        invariant
            it.seq() == s,
            all == checkpoints(s, s.len() as int),
            match prev {
                Some(c) => checkpoints(s, it.index() as int).len() == segments@.len() + 1
                    && s[checkpoints(s, it.index() as int).last()] == Record::Checkpoint(c)
                    && resolver.state@ == replayed(
                    s.subrange(
                        checkpoints(s, it.index() as int).last() + 1,
                        it.index() as int,
                    ),
                ) && trailing == (checkpoints(s, it.index() as int).last() + 1 < it.index()),
                None => checkpoints(s, it.index() as int).len() == 0 && segments@.len() == 0,
            },
            many == (segments@.len() > 0),
            forall|k: int| 0 <= k < segments@.len() ==> spans(#[trigger] segments@[k], s, k),
    {
        let ghost i = it.index() as int;
        let ghost c = checkpoints(s, i);
        proof {
            lemma_checkpoints(s, i);
            lemma_checkpoints(s, i + 1);
            lemma_checkpoints_prefix(s, i, s.len() as int);
            lemma_checkpoints_prefix(s, i + 1, s.len() as int);
            if prev is Some {
                assert(s.subrange(c.last() + 1, i + 1).drop_last() =~= s.subrange(c.last() + 1, i));
            }
            assert(s.subrange(i + 1, i + 1) =~= Seq::<Record>::empty());
        }
        if let Record::Checkpoint(chk) = record {
            if let Some(from) = prev {
                let changes = resolver.into_changes();
                segments.push(Segment { from, to: Some(chk.clone()), changes });
                many = true;
                proof {
                    let k = c.len() - 1;
                    assert(all[k] == c.last());
                    assert(all[k + 1] == i);
                    assert(spans(segments@[k], s, k));
                }
            }
            resolver = Resolver::new();
            prev = Some(chk);
            trailing = false;
        } else {
            if prev.is_some() {
                resolver.process(record);
                trailing = true;
            }
        }
    }
    if let Some(from) = prev {
        proof {
            lemma_checkpoints(s, s.len() as int);
            assert(s.subrange(all.last() + 1, s.len() as int) =~= s.skip(all.last() + 1));
        }
        let changes = resolver.into_changes();
        if (many && changes.len() > 0) || (!many && trailing) {
            segments.push(Segment { from, to: None, changes });
        }
    }
    Ok(segments)
}

// ── Laws ─────────────────────────────────────────────────────────────

/// A path that is added and deleted again cancels out, where it was not
/// deleted or renamed to before.
pub proof fn law_added_deleted_cancels(
    m: State,
    p: String,
    q: String,
    dtype: Option<DType>,
    ino: u64,
)
    requires
        p@ == q@,
        !m.contains_key(p@),
    ensures
        after_record(
            after_record(m, Record::Added { path: p, dtype, ino }),
            Record::Deleted { path: q },
        ) == m,
{
    let m1 = after_record(m, Record::Added { path: p, dtype, ino });
    assert(m1.remove(p@) =~= m);
}

/// A deletion and a redirect to what was deleted make up a rename.
pub proof fn law_deleted_redirected_is_rename(
    m: State,
    deleted: String,
    new: String,
    base: String,
    dtype: Option<DType>,
)
    requires
        deleted@ == base@,
        !m.contains_key(base@),
        !m.contains_key(new@),
        new@ != base@,
    ensures
        after_record(
            after_record(m, Record::Deleted { path: deleted }),
            Record::Redirect { path: new, dtype, base },
        ) == m.insert(
            new@,
            Staged::Rename {
                origin: base,
                dtype: kind_or_file(dtype),
                ino: None,
                overwrites: false,
            },
        ),
{
    let m1 = after_record(m, Record::Deleted { path: deleted });
    assert(overwritten(m1, new@) =~= m1);
    assert(m1.remove(base@) =~= m);
}

/// Redirects chain: one of `b` to `a` and one of `c` to `b` rename `a` to `c`.
pub proof fn law_redirects_chain(
    m: State,
    a: String,
    b: String,
    b2: String,
    c: String,
    first: Option<DType>,
    second: Option<DType>,
)
    requires
        b@ == b2@,
        a@ != b@,
        b@ != c@,
        !m.contains_key(a@),
        !m.contains_key(b@),
        !m.contains_key(c@),
    ensures
        after_record(
            after_record(m, Record::Redirect { path: b, dtype: first, base: a }),
            Record::Redirect { path: c, dtype: second, base: b2 },
        ) == m.insert(
            c@,
            Staged::Rename {
                origin: a,
                dtype: kind_or_file(second),
                ino: None,
                overwrites: false,
            },
        ),
{
    assert(overwritten(m, b@) =~= m);
    assert(m.remove(a@) =~= m);
    let m1 = after_record(m, Record::Redirect { path: b, dtype: first, base: a });
    assert(overwritten(m1, c@) =~= m1);
    assert(m1.remove(b@) =~= m);
}

/// Where what is at `p` comes from, if it has been renamed.
pub open spec fn origin_at(m: State, p: Seq<char>) -> Option<Seq<char>> {
    match at_path(m, p) {
        Some(Staged::Rename { origin, .. }) => Some(origin@),
        _ => None,
    }
}

/// Whatever was staged before, a redirect of `c` to a redirected `b` goes to
/// where `b` goes, and leaves nothing to be done at `b`. The one exception is
/// a `c` that `b` had been renamed to before.
pub proof fn law_redirect_follows(
    m: State,
    b: String,
    c: String,
    dtype: Option<DType>,
)
    requires
        b@ != c@,
        origin_at(m, b@) is Some,
        origin_at(m, c@) != Some(b@),
    ensures
        origin_at(after_record(m, Record::Redirect { path: c, dtype, base: b }), c@) == origin_at(
            m,
            b@,
        ),
        !after_record(m, Record::Redirect { path: c, dtype, base: b }).contains_key(b@),
{
    let m1 = overwritten(m, c@);
    assert(at_path(m1, b@) == at_path(m, b@));
}

/// Of several writes to one path only the last counts. Where the path had been
/// deleted this is so of modifications.
pub proof fn law_last_write_counts(
    m: State,
    p: Seq<char>,
    d1: Option<DType>,
    ino1: u64,
    d2: Option<DType>,
    ino2: u64,
    is_new: bool,
)
    requires
        at_path(m, p) == Some(Staged::Delete) ==> !is_new,
    ensures
        after_write(after_write(m, p, d1, ino1, is_new), p, d2, ino2, is_new) == after_write(
            m,
            p,
            d2,
            ino2,
            is_new,
        ),
{
    assert(after_write(after_write(m, p, d1, ino1, is_new), p, d2, ino2, is_new) =~= after_write(
        m,
        p,
        d2,
        ino2,
        is_new,
    ));
}

/// The rank of a change in a list: renames, writes, deletions.
pub open spec fn rank(c: Change) -> int {
    match c {
        Change::Renamed { .. } => 0,
        Change::Replaced { .. } => 0,
        Change::Added { .. } => 1,
        Change::Modified { .. } => 1,
        Change::Deleted(_) => 2,
    }
}

proof fn lemma_gathered_rank(
    s: Seq<(String, Staged)>,
    n: int,
    f: spec_fn((String, Staged)) -> Option<Change>,
    k: int,
)
    requires
        forall|e: (String, Staged)| #[trigger] f(e) is Some ==> rank(f(e)->0) == k,
    ensures
        forall|i: int|
            0 <= i < gathered(s, n, f).len() ==> rank(#[trigger] gathered(s, n, f)[i]) == k,
    decreases n,
{
    if n > 0 {
        lemma_gathered_rank(s, n - 1, f, k);
        assert(f(s[n - 1]) is Some ==> rank(f(s[n - 1])->0) == k);
        let g = gathered(s, n - 1, f);
        assert forall|i: int| 0 <= i < gathered(s, n, f).len() implies rank(
            #[trigger] gathered(s, n, f)[i],
        ) == k by {
            if i < g.len() {
                assert(gathered(s, n, f)[i] == g[i]);
            }
        }
    }
}

/// Renames come before writes, and writes before deletions.
pub proof fn law_changes_ranked(c: Seq<Change>, m: State)
    requires
        are_changes_of(c, m),
    ensures
        forall|i: int, j: int|
            0 <= i <= j < c.len() ==> rank(#[trigger] c[i]) <= rank(#[trigger] c[j]),
{
    let s = choose|s: Seq<(String, Staged)>| #[trigger]
        sorted_keys(s) && entries_map(s) == m && c == listed(s);
    let n = s.len() as int;
    lemma_gathered_rank(s, n, |e: (String, Staged)| rename_at(e), 0);
    lemma_gathered_rank(s, n, |e: (String, Staged)| write_at(e), 1);
    lemma_gathered_rank(s, n, |e: (String, Staged)| delete_at(e), 2);
}

/// The checkpoints of a log are listed where they stand, in order, and none is
/// left out.
pub proof fn law_checkpoints_are_listed(s: Seq<Record>, n: int)
    requires
        0 <= n <= s.len(),
    ensures
        forall|j: int, k: int|
            0 <= j < k < checkpoints(s, n).len() ==> (#[trigger] checkpoints(s, n)[j]) < (
            #[trigger] checkpoints(s, n)[k]),
        forall|i: int|
            0 <= i < n && #[trigger] s[i] is Checkpoint ==> checkpoints(s, n).contains(i),
        forall|k: int|
            0 <= k < checkpoints(s, n).len() ==> 0 <= (#[trigger] checkpoints(s, n)[k]) < n
                && s[checkpoints(s, n)[k]] is Checkpoint,
    decreases n,
{
    lemma_checkpoints(s, n);
    if n > 0 {
        law_checkpoints_are_listed(s, n - 1);
        let (a, b) = (checkpoints(s, n - 1), checkpoints(s, n));
        assert forall|i: int| 0 <= i < n && #[trigger] s[i] is Checkpoint implies b.contains(
            i,
        ) by {
            if i < n - 1 {
                let k = choose|k: int| 0 <= k < a.len() && a[k] == i;
                assert(b[k] == i);
            } else {
                assert(b[a.len() as int] == i);
            }
        }
    }
}

/// The segments of a log join up: each begins at the checkpoint at which the
/// one before it ends, the first at the first checkpoint, and only the last
/// may go on to the end of the log.
pub proof fn law_segments_join_up(r: Seq<Segment>, s: Seq<Record>)
    requires
        are_segments_of(r, s),
    ensures
        forall|k: int|
            0 <= k < r.len() - 1 ==> (#[trigger] r[k]).to == Some(r[k + 1].from),
        r.len() > 0 ==> exists|i: int|
            0 <= i < s.len() && #[trigger] s[i] == Record::Checkpoint(r[0].from) && forall|j: int|
                0 <= j < i ==> !(#[trigger] s[j] is Checkpoint),
{
    let n = s.len() as int;
    let c = checkpoints(s, n);
    law_checkpoints_are_listed(s, n);
    assert forall|k: int| 0 <= k < r.len() - 1 implies (#[trigger] r[k]).to == Some(
        r[k + 1].from,
    ) by {
        assert(spans(r[k], s, k));
        if k + 1 < c.len() - 1 {
            assert(spans(r[k + 1], s, k + 1));
        } else {
            assert(trails(r.last(), s));
        }
    }
    if r.len() > 0 {
        let i = c[0];
        if c.len() > 1 {
            assert(spans(r[0], s, 0));
        } else {
            assert(trails(r.last(), s));
        }
        assert(s[i] == Record::Checkpoint(r[0].from));
        assert forall|j: int| 0 <= j < i implies !(#[trigger] s[j] is Checkpoint) by {
            if s[j] is Checkpoint {
                let k = choose|k: int| 0 <= k < c.len() && c[k] == j;
                assert(c[0] <= c[k]);
            }
        }
    }
}

// ── What the records say ─────────────────────────────────────────────

/// The record is about the path, as its own or as the one it redirects to.
pub open spec fn concerns(r: Record, p: Seq<char>) -> bool {
    match r {
        Record::Added { path, .. } => path@ == p,
        Record::Modified { path, .. } => path@ == p,
        Record::Deleted { path } => path@ == p,
        Record::Redirect { path, base, .. } => path@ == p || base@ == p,
        Record::Replace { path, base, .. } => path@ == p || base@ == p,
        _ => false,
    }
}

/// The last record about the path, if there is one.
pub open spec fn last_concerning(s: Seq<Record>, p: Seq<char>) -> Option<Record>
    decreases s.len(),
{
    if s.len() == 0 {
        None
    } else if concerns(s.last(), p) {
        Some(s.last())
    } else {
        last_concerning(s.drop_last(), p)
    }
}

/// Where the state says that an inode is staged at a path, the last record
/// about the path has written it, and of that kind. What it calls new was
/// added, and a modification is never called new.
pub proof fn law_staged_was_written(s: Seq<Record>, p: Seq<char>)
    ensures
        at_path(replayed(s), p) matches Some(Staged::Stage { ino, dtype, is_new }) ==> match last_concerning(
        s, p) {
            Some(Record::Added { ino: i, dtype: d, .. }) => i == ino && dtype == (match d {
                Some(k) => k,
                None => DType::File,
            }),
            Some(Record::Modified { ino: i, dtype: d, .. }) => i == ino && !is_new && dtype == (
            match d {
                Some(k) => k,
                None => DType::File,
            }),
            _ => false,
        },
    decreases s.len(),
{
    if s.len() > 0 {
        law_staged_was_written(s.drop_last(), p);
    }
}

/// A path that no record is about is not staged, nor renamed to.
pub proof fn law_unconcerned_is_unstaged(s: Seq<Record>, p: Seq<char>)
    requires
        last_concerning(s, p) is None,
    ensures
        !(at_path(replayed(s), p) matches Some(Staged::Stage { .. })),
        origin_at(replayed(s), p) is None,
    decreases s.len(),
{
    if s.len() > 0 {
        law_unconcerned_is_unstaged(s.drop_last(), p);
    }
}

/// The last redirect of the path: true where it is over something that exists.
pub open spec fn last_redirect(s: Seq<Record>, p: Seq<char>) -> Option<bool>
    decreases s.len(),
{
    if s.len() == 0 {
        None
    } else {
        match s.last() {
            Record::Redirect { path, .. } if path@ == p => Some(false),
            Record::Replace { path, .. } if path@ == p => Some(true),
            _ => last_redirect(s.drop_last(), p),
        }
    }
}

/// Where the state says that something was renamed to a path, it was by the
/// last redirect of the path, and over something that exists where that says so.
pub proof fn law_renamed_was_redirected(s: Seq<Record>, p: Seq<char>)
    ensures
        at_path(replayed(s), p) matches Some(Staged::Rename { overwrites, .. }) ==> last_redirect(
            s,
            p,
        ) == Some(overwrites),
    decreases s.len(),
{
    if s.len() > 0 {
        law_renamed_was_redirected(s.drop_last(), p);
    }
}

} // verus!
