//! The net effect of an action list: one change per path.
use super::effect::{at, replay, Content, Files};
use super::passes::involves;
use super::types::{Action, ActionList, Change, Changeset};
use crate::dtype::DType;
use crate::pathmap::{entries_map, sorted_keys, PathMap};
use vstd::prelude::*;

verus! {

/// `m` with `v` at `k` where nothing stands there yet.
pub open spec fn put_if_absent(
    m: Map<Seq<char>, Change>,
    k: Seq<char>,
    v: Change,
) -> Map<Seq<char>, Change> {
    if m.contains_key(k) {
        m
    } else {
        m.insert(k, v)
    }
}

/// The path that what is now at `p` was moved from.
pub open spec fn origin(m: Map<Seq<char>, Change>, p: Seq<char>) -> Option<String> {
    if m.contains_key(p) {
        match m[p] {
            Change::Renamed { from, .. } => Some(from),
            Change::Replaced { from, .. } => Some(from),
            _ => None,
        }
    } else {
        None
    }
}

/// The change at the destination of a move.
pub open spec fn moved(from: String, dtype: DType, overwrites: bool) -> Change {
    if overwrites {
        Change::Replaced { from, dtype }
    } else {
        Change::Renamed { from, dtype }
    }
}

/// The state after what is at `p` is taken away: an overwritten move leaves
/// its origin deleted.
pub open spec fn overwritten(m: Map<Seq<char>, Change>, p: Seq<char>) -> Map<Seq<char>, Change> {
    match origin(m, p) {
        Some(o) => put_if_absent(m.remove(p), o@, Change::Deleted),
        None => m.remove(p),
    }
}

/// The state after a move from `old` to `new`.
pub open spec fn after_move(
    m: Map<Seq<char>, Change>,
    old: String,
    new: Seq<char>,
    dtype: DType,
    overwrites: bool,
) -> Map<Seq<char>, Change> {
    if old@ == new {
        m
    } else if origin(m, old@) is Some && (origin(m, old@)->0)@ == new {
        m.remove(old@).remove(new)
    } else {
        let m1 = overwritten(m, new);
        if m1.contains_key(old@) && m1[old@] is Added {
            m1.remove(old@).insert(new, m1[old@])
        } else {
            let kind = match m1[old@] {
                Change::Modified { dtype: d, .. } => if m1.contains_key(old@) {
                    d
                } else {
                    dtype
                },
                _ => dtype,
            };
            m1.insert(old@, Change::Deleted).insert(new, moved(old, kind, overwrites))
        }
    }
}

/// The state after a deletion of `p`.
pub open spec fn after_delete(m: Map<Seq<char>, Change>, p: Seq<char>) -> Map<Seq<char>, Change> {
    if m.contains_key(p) && m[p] is Added {
        m.remove(p)
    } else {
        overwritten(m, p).insert(p, Change::Deleted)
    }
}

/// The state after one action.
pub open spec fn after_action(m: Map<Seq<char>, Change>, a: Action) -> Map<Seq<char>, Change> {
    match a {
        Action::Add { path, ino, dtype } => m.insert(path@, Change::Added { ino, dtype }),
        Action::Modify { path, ino, dtype } => m.insert(path@, Change::Modified { ino, dtype }),
        Action::Delete { path } => after_delete(m, path@),
        Action::Rename { old, new, dtype } => after_move(m, old, new@, dtype, false),
        Action::Replace { old, new, dtype } => after_move(m, old, new@, dtype, true),
    }
}

/// The state after a sequence of actions, from nothing.
pub open spec fn net_changes(s: Seq<Action>) -> Map<Seq<char>, Change>
    decreases s.len(),
{
    if s.len() == 0 {
        Map::empty()
    } else {
        after_action(net_changes(s.drop_last()), s.last())
    }
}

impl ActionList {
    /// Derives the state summary for display: the net change of each path,
    /// in the byte order of the paths.
    pub fn collapse(&self) -> (r: Changeset)
        ensures
            sorted_keys(r.0@),
            entries_map(r.0@) == net_changes(self.0@),
    {
        let mut state: PathMap<Change> = PathMap::new();
        let ghost s = self.0@;
        let mut i: usize = 0;
        while i < self.0.len()
            invariant
                i <= self.0@.len(),
                s == self.0@,
                state@ == net_changes(s.take(i as int)),
            decreases self.0@.len() - i,
        {
            proof {
                assert(s.take(i + 1).drop_last() =~= s.take(i as int));
            }
            match &self.0[i] {
                Action::Add { path, ino, dtype } => {
                    state.insert(path.clone(), Change::Added { ino: *ino, dtype: *dtype });
                },
                Action::Modify { path, ino, dtype } => {
                    state.insert(path.clone(), Change::Modified { ino: *ino, dtype: *dtype });
                },
                Action::Delete { path } => {
                    collapse_delete(&mut state, path);
                },
                Action::Rename { old, new, dtype } => {
                    collapse_rename(&mut state, old, new, *dtype, false);
                },
                Action::Replace { old, new, dtype } => {
                    collapse_rename(&mut state, old, new, *dtype, true);
                },
            }
            i += 1;
        }
        proof {
            assert(s.take(s.len() as int) =~= s);
        }
        Changeset(state.into_entries())
    }
}

/// Takes away what is at `path`; an overwritten move leaves its origin deleted.
fn clear(state: &mut PathMap<Change>, path: &String)
    ensures
        final(state)@ == overwritten(old(state)@, path@),
{
    match state.remove(path.as_str()) {
        Some(Change::Renamed { from, .. }) => mark_deleted(state, from),
        Some(Change::Replaced { from, .. }) => mark_deleted(state, from),
        _ => {},
    }
}

/// Marks `path` deleted where nothing is known of it.
fn mark_deleted(state: &mut PathMap<Change>, path: String)
    ensures
        final(state)@ == put_if_absent(old(state)@, path@, Change::Deleted),
{
    if !state.contains_key(path.as_str()) {
        state.insert(path, Change::Deleted);
    }
}

fn collapse_delete(state: &mut PathMap<Change>, path: &String)
    ensures
        final(state)@ == after_delete(old(state)@, path@),
{
    if let Some(Change::Added { .. }) = state.get(path.as_str()) {
        state.remove(path.as_str());
        return ;
    }
    clear(state, path);
    state.insert(path.clone(), Change::Deleted);
}

/// True when what is at `old` was moved there from `new`.
fn returns_to(state: &PathMap<Change>, old: &String, new: &String) -> (r: bool)
    ensures
        r == (origin(state@, old@) is Some && (origin(state@, old@)->0)@ == new@),
{
    match state.get(old.as_str()) {
        Some(Change::Renamed { from, .. }) => *from == *new,
        Some(Change::Replaced { from, .. }) => *from == *new,
        _ => false,
    }
}

fn collapse_rename(
    state: &mut PathMap<Change>,
    old_path: &String,
    new: &String,
    dtype: DType,
    overwrites: bool,
)
    ensures
        final(state)@ == after_move(old(state)@, *old_path, new@, dtype, overwrites),
{
    // A self-rename is a no-op.
    if *old_path == *new {
        return ;
    }
    // A round trip: the file returns to its original path.
    if returns_to(state, old_path, new) {
        state.remove(old_path.as_str());
        state.remove(new.as_str());
        return ;
    }
    clear(state, new);
    let ghost m1 = state@;
    let mut kind: DType = dtype;
    match state.remove(old_path.as_str()) {
        Some(Change::Added { ino, dtype: d }) => {
            // A staged source is just an addition at the new path.
            state.insert(new.clone(), Change::Added { ino, dtype: d });
            return ;
        },
        Some(Change::Modified { dtype: d, .. }) => {
            kind = d;
        },
        _ => {},
    }
    state.insert(old_path.clone(), Change::Deleted);
    proof {
        assert(m1.remove(old_path@).insert(old_path@, Change::Deleted) =~= m1.insert(
            old_path@,
            Change::Deleted,
        ));
    }
    insert_rename(state, old_path, new, kind, overwrites);
}

fn insert_rename(
    state: &mut PathMap<Change>,
    old_path: &String,
    new: &String,
    dtype: DType,
    overwrites: bool,
)
    ensures
        final(state)@ == old(state)@.insert(new@, moved(*old_path, dtype, overwrites)),
{
    if overwrites {
        state.insert(new.clone(), Change::Replaced { from: old_path.clone(), dtype });
    } else {
        state.insert(new.clone(), Change::Renamed { from: old_path.clone(), dtype });
    }
}

/// Moving a path of which nothing is known away and back again leaves the state as it was.
pub proof fn law_round_trip(
    m: Map<Seq<char>, Change>,
    a: String,
    b: String,
    there: DType,
    back: DType,
)
    requires
        a@ != b@,
        !m.contains_key(a@),
        !m.contains_key(b@),
    ensures
        after_action(
            after_action(m, Action::Rename { old: a, new: b, dtype: there }),
            Action::Rename { old: b, new: a, dtype: back },
        ) == m,
{
    let m1 = after_action(m, Action::Rename { old: a, new: b, dtype: there });
    assert(m1.contains_key(b@) && m1[b@] == Change::Renamed { from: a, dtype: there });
    assert(m1.remove(b@).remove(a@) =~= m);
}

/// A deletion of an addition leaves the path as if it had never been there.
pub proof fn law_add_delete_cancels(
    m: Map<Seq<char>, Change>,
    p: String,
    q: String,
    ino: u64,
    dtype: DType,
)
    requires
        p@ == q@,
    ensures
        after_action(
            after_action(m, Action::Add { path: p, ino, dtype }),
            Action::Delete { path: q },
        ) == m.remove(p@),
{
    assert(m.insert(p@, Change::Added { ino, dtype }).remove(p@) =~= m.remove(p@));
}

/// No change says that a path was moved from itself.
pub open spec fn moves_apart(m: Map<Seq<char>, Change>) -> bool {
    forall|p: Seq<char>| #[trigger] origin(m, p) is Some ==> (origin(m, p)->0)@ != p
}

proof fn lemma_moves_apart_step(m: Map<Seq<char>, Change>, a: Action)
    requires
        moves_apart(m),
    ensures
        moves_apart(after_action(m, a)),
{
    let r = after_action(m, a);
    assert forall|p: Seq<char>| #[trigger] origin(r, p) is Some implies (origin(r, p)->0)@
        != p by {
        assert(origin(m, p) is Some ==> (origin(m, p)->0)@ != p);
    }
}

/// No net change says that a path was moved from itself.
pub proof fn law_moves_apart(s: Seq<Action>)
    ensures
        moves_apart(net_changes(s)),
    decreases s.len(),
{
    if s.len() > 0 {
        law_moves_apart(s.drop_last());
        lemma_moves_apart_step(net_changes(s.drop_last()), s.last());
    }
}

/// True when one of the actions is about `p`, as its path or as an end of a move.
pub open spec fn touched(s: Seq<Action>, p: Seq<char>) -> bool {
    exists|i: int| 0 <= i < s.len() && involves(#[trigger] s[i], p)
}

/// Every path that has a change or is named as an origin is touched.
spec fn names_touched(m: Map<Seq<char>, Change>, s: Seq<Action>) -> bool {
    &&& forall|p: Seq<char>| #[trigger] m.contains_key(p) ==> touched(s, p)
    &&& forall|p: Seq<char>| #[trigger] origin(m, p) is Some ==> touched(s, (origin(m, p)->0)@)
}

proof fn lemma_names_touched(s: Seq<Action>)
    ensures
        names_touched(net_changes(s), s),
    decreases s.len(),
{
    if s.len() > 0 {
        let t = s.drop_last();
        let a = s.last();
        lemma_names_touched(t);
        let m = net_changes(t);
        let r = net_changes(s);
        assert forall|p: Seq<char>| #[trigger] touched(t, p) implies touched(s, p) by {
            let i = choose|i: int| 0 <= i < t.len() && involves(#[trigger] t[i], p);
            assert(s[i] == t[i]);
        }
        assert(s[s.len() - 1] == a);
        assert(involves(a, a.source()) && involves(a, a.dest()));
        assert(touched(s, a.source()) && touched(s, a.dest()));
        assert forall|p: Seq<char>| #[trigger] r.contains_key(p) implies touched(s, p) by {
            assert(m.contains_key(p) ==> touched(t, p));
            assert(origin(m, a.dest()) is Some ==> touched(t, (origin(m, a.dest())->0)@));
        }
        assert forall|p: Seq<char>| #[trigger] origin(r, p) is Some implies touched(
            s,
            (origin(r, p)->0)@,
        ) by {
            assert(origin(m, p) is Some ==> touched(t, (origin(m, p)->0)@));
        }
    }
}

/// A path that no action is about has no net change.
pub proof fn law_untouched_unchanged(s: Seq<Action>, p: Seq<char>)
    requires
        !touched(s, p),
    ensures
        !net_changes(s).contains_key(p),
{
    lemma_names_touched(s);
}

/// The inode that a change stages.
pub open spec fn staged_inode(m: Map<Seq<char>, Change>, p: Seq<char>) -> Option<u64> {
    if m.contains_key(p) {
        match m[p] {
            Change::Added { ino, .. } => Some(ino),
            Change::Modified { ino, .. } => Some(ino),
            _ => None,
        }
    } else {
        None
    }
}

/// What a step does to the inode that is staged at a path.
proof fn lemma_staged_step(m: Map<Seq<char>, Change>, a: Action, p: Seq<char>)
    ensures
        match a {
            Action::Add { ino, .. } => staged_inode(after_action(m, a), p) == (if p == a.dest() {
                Some(ino)
            } else {
                staged_inode(m, p)
            }),
            Action::Modify { ino, .. } => staged_inode(after_action(m, a), p) == (if p
                == a.dest() {
                Some(ino)
            } else {
                staged_inode(m, p)
            }),
            Action::Delete { .. } => staged_inode(after_action(m, a), p) is Some ==> p != a.dest()
                && staged_inode(after_action(m, a), p) == staged_inode(m, p),
            _ => staged_inode(after_action(m, a), p) is Some ==> staged_inode(
                after_action(m, a),
                p,
            ) == (if p == a.dest() {
                staged_inode(m, a.source())
            } else {
                staged_inode(m, p)
            }) && (p == a.source() ==> a.source() == a.dest()),
        },
{
    match a {
        Action::Rename { old, new, dtype } => {
            lemma_staged_move(m, old, new@, dtype, false, p);
        },
        Action::Replace { old, new, dtype } => {
            lemma_staged_move(m, old, new@, dtype, true, p);
        },
        _ => {},
    }
}

proof fn lemma_staged_move(
    m: Map<Seq<char>, Change>,
    from: String,
    to: Seq<char>,
    dtype: DType,
    overwrites: bool,
    p: Seq<char>,
)
    ensures
        staged_inode(after_move(m, from, to, dtype, overwrites), p) is Some ==> staged_inode(
            after_move(m, from, to, dtype, overwrites),
            p,
        ) == (if p == to {
            staged_inode(m, from@)
        } else {
            staged_inode(m, p)
        }) && (p == from@ ==> from@ == to),
{
}

/// Where the net change of a path is a staged inode, replaying the actions
/// leaves that inode there.
pub proof fn law_staged_is_left(s: Seq<Action>, m: Files, p: Seq<char>)
    ensures
        staged_inode(net_changes(s), p) matches Some(ino) ==> at(replay(m, s), p) == Some(
            Content::Staged(ino),
        ),
    decreases s.len(),
{
    if s.len() > 0 {
        let t = s.drop_last();
        law_staged_is_left(t, m, p);
        law_staged_is_left(t, m, s.last().source());
        lemma_staged_step(net_changes(t), s.last(), p);
    }
}

} // verus!
