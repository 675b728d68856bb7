//! That the net changes of a list of actions tell what the actions come to.
use super::action::{net_changes, origin};
use super::effect::{at, replay, replay_one, Files};
use super::passes::involves;
use super::types::{Action, Change};
use crate::dtype::DType;
use vstd::prelude::*;

verus! {

// ── Additions ────────────────────────────────────────────────────────

/// The inode and kind that an addition, and moves after it, have brought to `p`.
pub open spec fn brought(s: Seq<Action>, p: Seq<char>) -> Option<(u64, DType)>
    decreases s.len(),
{
    if s.len() == 0 {
        None
    } else {
        let t = s.drop_last();
        let a = s.last();
        if !involves(a, p) || a.source() == a.dest() && a.is_move() {
            brought(t, p)
        } else {
            match a {
                Action::Add { ino, dtype, .. } => Some((ino, dtype)),
                _ => if a.is_move() && p == a.dest() {
                    brought(t, a.source())
                } else {
                    None
                },
            }
        }
    }
}

/// The change at `p` says that something was added.
pub open spec fn said_added(m: Map<Seq<char>, Change>, p: Seq<char>) -> Option<(u64, DType)> {
    if m.contains_key(p) {
        match m[p] {
            Change::Added { ino, dtype } => Some((ino, dtype)),
            _ => None,
        }
    } else {
        None
    }
}

/// A path is shown as added exactly where an addition, and moves after it,
/// have brought something to it, and with that inode and kind: a file that is
/// written under one name and moved into place is added there.
pub proof fn law_added_is_told(s: Seq<Action>, p: Seq<char>)
    ensures
        said_added(net_changes(s), p) == brought(s, p),
    decreases s.len(),
{
    if s.len() > 0 {
        let t = s.drop_last();
        let a = s.last();
        law_added_is_told(t, p);
        law_added_is_told(t, a.source());
        law_added_is_told(t, a.dest());
    }
}

// ── Modifications ────────────────────────────────────────────────────

/// The last action that involves `p`, if one does. A move of a path to itself
/// counts for none.
pub open spec fn last_about(s: Seq<Action>, p: Seq<char>) -> Option<int>
    decreases s.len(),
{
    if s.len() == 0 {
        None
    } else if involves(s.last(), p) && !(s.last().is_move() && s.last().source()
        == s.last().dest()) {
        Some(s.len() - 1)
    } else {
        last_about(s.drop_last(), p)
    }
}

/// The inode and kind that the last action about `p` stages there, where it is
/// a modification.
pub open spec fn last_modified(s: Seq<Action>, p: Seq<char>) -> Option<(u64, DType)> {
    match last_about(s, p) {
        Some(i) => match s[i] {
            Action::Modify { ino, dtype, .. } => Some((ino, dtype)),
            _ => None,
        },
        None => None,
    }
}

/// The change at `p` says that something was modified.
pub open spec fn said_modified(m: Map<Seq<char>, Change>, p: Seq<char>) -> Option<(u64, DType)> {
    if m.contains_key(p) {
        match m[p] {
            Change::Modified { ino, dtype } => Some((ino, dtype)),
            _ => None,
        }
    } else {
        None
    }
}

/// A path is shown as modified exactly where the last action about it is a
/// modification, and with its inode and kind.
pub proof fn law_modified_is_told(s: Seq<Action>, p: Seq<char>)
    ensures
        said_modified(net_changes(s), p) == last_modified(s, p),
    decreases s.len(),
{
    if s.len() > 0 {
        let t = s.drop_last();
        law_modified_is_told(t, p);
        lemma_last_about(t, p);
    }
}

proof fn lemma_last_about(s: Seq<Action>, p: Seq<char>)
    ensures
        last_about(s, p) matches Some(i) ==> 0 <= i < s.len() && involves(s[i], p),
    decreases s.len(),
{
    if s.len() > 0 {
        lemma_last_about(s.drop_last(), p);
    }
}

// ── Moves ────────────────────────────────────────────────────────────

/// Where the net change of a path says that something was moved there, the
/// last action about the path moved it there from the path named. It says that
/// something was replaced where the action does. The kind is that of the
/// action, or that of the modification that was moved.
pub proof fn law_move_is_told(s: Seq<Action>, p: Seq<char>)
    ensures
        net_changes(s).contains_key(p) ==> match net_changes(s)[p] {
            Change::Renamed { from, dtype } => last_about(s, p) matches Some(i) && s[i] is Rename
                && moves(s, i, from@, p, dtype),
            Change::Replaced { from, dtype } => last_about(s, p) matches Some(i) && s[i] is Replace
                && moves(s, i, from@, p, dtype),
            _ => true,
        },
    decreases s.len(),
{
    if s.len() > 0 {
        let t = s.drop_last();
        let a = s.last();
        law_move_is_told(t, p);
        law_modified_is_told(t, a.source());
        lemma_last_about(t, p);
        if last_about(t, p) is Some {
            let i = last_about(t, p)->0;
            assert(s.take(i) =~= t.take(i));
        }
        assert(s.take(s.len() - 1) =~= t);
    }
}

/// The action at `i` moves something from one path to another, and what it
/// moves is of that kind.
pub open spec fn moves(
    s: Seq<Action>,
    i: int,
    from: Seq<char>,
    to: Seq<char>,
    dtype: DType,
) -> bool {
    let before = s.take(i);
    &&& s[i].is_move()
    &&& s[i].source() == from
    &&& s[i].dest() == to
    &&& from != to
    &&& dtype == match last_modified(before, from) {
        Some((_, d)) => d,
        None => kind_of_move(s[i]),
    }
}

/// The kind that a move gives.
pub open spec fn kind_of_move(a: Action) -> DType {
    match a {
        Action::Rename { dtype, .. } => dtype,
        Action::Replace { dtype, .. } => dtype,
        Action::Add { dtype, .. } => dtype,
        Action::Modify { dtype, .. } => dtype,
        Action::Delete { .. } => DType::File,
    }
}

// ── Completeness ─────────────────────────────────────────────────────

/// Nothing that differs from base is forgotten by the action: what is added
/// and deleted, or moved on, was not in base, and what comes back to where it
/// was moved from is what base had there.
pub open spec fn forgets_safely(base: Files, f: Files, m: Map<Seq<char>, Change>, a: Action) -> bool {
    let g = replay_one(f, a);
    match a {
        Action::Delete { path } => said_added(m, path@) is Some ==> !base.contains_key(path@),
        _ => a.is_move() && a.source() != a.dest() ==> {
            &&& said_added(m, a.source()) is Some ==> !base.contains_key(a.source())
            &&& origin(m, a.source()) is Some && (origin(m, a.source())->0)@ == a.dest() ==> at(
                g,
                a.source(),
            ) == at(base, a.source()) && at(g, a.dest()) == at(base, a.dest())
        },
    }
}

/// Each of the actions forgets nothing that differs from base.
pub open spec fn all_forget_safely(base: Files, s: Seq<Action>) -> bool
    decreases s.len(),
{
    s.len() == 0 || (all_forget_safely(base, s.drop_last()) && forgets_safely(
        base,
        replay(base, s.drop_last()),
        net_changes(s.drop_last()),
        s.last(),
    ))
}

/// The net changes are complete: where replaying the actions leaves something
/// else at a path than base had there, the path has a net change.
pub proof fn law_changed_is_told(base: Files, s: Seq<Action>, p: Seq<char>)
    requires
        all_forget_safely(base, s),
        at(replay(base, s), p) != at(base, p),
    ensures
        net_changes(s).contains_key(p),
    decreases s.len(),
{
    if s.len() > 0 {
        let t = s.drop_last();
        let (f, m, a) = (replay(base, t), net_changes(t), s.last());
        if at(f, p) != at(base, p) {
            law_changed_is_told(base, t, p);
        }
        if at(f, a.source()) != at(base, a.source()) {
            law_changed_is_told(base, t, a.source());
        }
    }
}

/// What is overwritten leaves its origin known, or nothing is there.
pub open spec fn origins_known(base: Files, s: Seq<Action>) -> bool
    decreases s.len(),
{
    s.len() == 0 || (origins_known(base, s.drop_last()) && ({
        let m = net_changes(s.drop_last());
        match origin(m, s.last().dest()) {
            Some(o) => m.contains_key(o@) || at(replay(base, s), o@) is None,
            None => true,
        }
    }))
}

/// Where the net change of a path is its deletion, replaying the actions
/// leaves nothing there.
pub proof fn law_deleted_is_gone(base: Files, s: Seq<Action>, p: Seq<char>)
    requires
        origins_known(base, s),
        net_changes(s).contains_key(p),
        net_changes(s)[p] is Deleted,
    ensures
        at(replay(base, s), p) is None,
    decreases s.len(),
{
    if s.len() > 0 {
        let t = s.drop_last();
        let m = net_changes(t);
        if m.contains_key(p) && m[p] is Deleted {
            law_deleted_is_gone(base, t, p);
        }
    }
}

} // verus!
