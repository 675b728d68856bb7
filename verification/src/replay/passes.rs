//! Rewriting passes over action lists.
use super::types::{Action, Record};
use crate::dtype::{kind_or_file, DType};
use crate::sift::{flags, keep_flagged, lemma_sift_positions, sift};
use vstd::hash_map::StringHashMap;
use vstd::prelude::*;

verus! {

// ── Records to actions ───────────────────────────────────────────────

/// The action that a record stands for; markers stand for none.
pub open spec fn action_of(r: Record) -> Option<Action> {
    match r {
        Record::Added { path, dtype, ino } => Some(
            Action::Add { path, ino, dtype: kind_or_file(dtype) },
        ),
        Record::Modified { path, dtype, ino } => Some(
            Action::Modify { path, ino, dtype: kind_or_file(dtype) },
        ),
        Record::Deleted { path } => Some(Action::Delete { path }),
        Record::Redirect { old, new, dtype } => Some(
            Action::Rename { old, new, dtype: kind_or_file(dtype) },
        ),
        Record::Replace { old, new, dtype } => Some(
            Action::Replace { old, new, dtype: kind_or_file(dtype) },
        ),
        Record::Checkpoint { .. } => None,
        Record::Restore { .. } => None,
    }
}

/// The actions of a record sequence, in order.
pub open spec fn actions_of(s: Seq<Record>) -> Seq<Action>
    decreases s.len(),
{
    if s.len() == 0 {
        Seq::empty()
    } else {
        match action_of(s.last()) {
            Some(a) => actions_of(s.drop_last()).push(a),
            None => actions_of(s.drop_last()),
        }
    }
}

/// Turns records into actions, leaving markers out.
pub fn to_actions(records: Vec<Record>) -> (r: Vec<Action>)
    ensures
        r@ == actions_of(records@),
{
    let ghost all = records@;
    let mut out: Vec<Action> = Vec::new();
    for r in it: records
        invariant
            it.seq() == all,
            out@ == actions_of(all.take(it.index() as int)),
    {
        proof {
            let k = it.index() as int;
            assert(all.take(k + 1).drop_last() =~= all.take(k));
        }
        match r {
            Record::Added { path, dtype, ino } => out.push(
                Action::Add { path, ino, dtype: DType::or_file(dtype) },
            ),
            Record::Modified { path, dtype, ino } => out.push(
                Action::Modify { path, ino, dtype: DType::or_file(dtype) },
            ),
            Record::Deleted { path } => out.push(Action::Delete { path }),
            Record::Redirect { old, new, dtype } => out.push(
                Action::Rename { old, new, dtype: DType::or_file(dtype) },
            ),
            Record::Replace { old, new, dtype } => out.push(
                Action::Replace { old, new, dtype: DType::or_file(dtype) },
            ),
            Record::Checkpoint { .. } | Record::Restore { .. } => {},
        }
    }
    proof {
        assert(all.take(all.len() as int) =~= all);
    }
    out
}

// ── Decompose a move that is then written to ─────────────────────────

/// The last of the first `n` actions that leaves something at `p`.
pub open spec fn last_touch(s: Seq<Action>, n: int, p: Seq<char>) -> Option<int>
    decreases n,
{
    if n <= 0 {
        None
    } else if s[n - 1].dest() == p {
        Some(n - 1)
    } else {
        last_touch(s, n - 1, p)
    }
}

/// The move whose result the modification at `m` writes to, where no other
/// action has touched the path in between.
pub open spec fn moved_before(s: Seq<Action>, m: int) -> Option<int> {
    if s[m] is Modify {
        match last_touch(s, m, s[m].dest()) {
            Some(r) => if s[r].is_move() {
                Some(r)
            } else {
                None
            },
            None => None,
        }
    } else {
        None
    }
}

/// True when the result of the move at `i` is modified before anything else touches it.
pub open spec fn then_modified(s: Seq<Action>, i: int, n: int) -> bool {
    exists|m: int| 0 <= m < n && #[trigger] moved_before(s, m) == Some(i)
}

/// What stands at position `i` after the pass: a move that is then modified
/// only deletes its source, and the modification of a renamed path adds it.
pub open spec fn decomposed_at(s: Seq<Action>, i: int) -> Action {
    if then_modified(s, i, s.len() as int) {
        match s[i] {
            Action::Rename { old, .. } => Action::Delete { path: old },
            Action::Replace { old, .. } => Action::Delete { path: old },
            _ => s[i],
        }
    } else {
        match (s[i], moved_before(s, i)) {
            (Action::Modify { path, ino, dtype }, Some(r)) => if s[r] is Rename {
                Action::Add { path, ino, dtype }
            } else {
                s[i]
            },
            _ => s[i],
        }
    }
}

/// `Rename(a, b)`, `Modify(b)` becomes `Delete(a)`, `Add(b)`;
/// `Replace(a, b)`, `Modify(b)` becomes `Delete(a)`, `Modify(b)`.
pub open spec fn decomposed(s: Seq<Action>) -> Seq<Action> {
    Seq::new(s.len(), |i: int| decomposed_at(s, i))
}

proof fn lemma_last_touch(s: Seq<Action>, n: int, p: Seq<char>)
    ensures
        match last_touch(s, n, p) {
            Some(r) => 0 <= r < n && s[r].dest() == p,
            None => true,
        },
    decreases n,
{
    if n > 0 && s[n - 1].dest() != p {
        lemma_last_touch(s, n - 1, p);
    }
}

/// Where a move's result is next touched by a modification.
struct MovePairs {
    /// For each action, whether it modifies the result of a `Rename`.
    adds: Vec<bool>,
    /// For each action, whether it is a move that is then modified.
    used: Vec<bool>,
}

fn find_moves_modified(actions: &Vec<Action>) -> (r: MovePairs)
    ensures
        r.adds@.len() == actions@.len(),
        r.used@.len() == actions@.len(),
        forall|m: int|
            0 <= m < actions@.len() ==> #[trigger] r.adds@[m] == match moved_before(actions@, m) {
                Some(j) => actions@[j] is Rename,
                None => false,
            },
        forall|j: int|
            0 <= j < actions@.len() ==> #[trigger] r.used@[j] == then_modified(
                actions@,
                j,
                actions@.len() as int,
            ),
{
    let n: usize = actions.len();
    let ghost s = actions@;
    let mut rename_dest: StringHashMap<usize> = StringHashMap::new();
    let mut adds: Vec<bool> = Vec::new();
    let mut used: Vec<bool> = flags(n, false);
    let mut i: usize = 0;
    while i < n
        invariant
            i <= n,
            n == s.len(),
            s == actions@,
            adds@.len() == i,
            used@.len() == n,
            forall|p: Seq<char>|
                #![trigger rename_dest@.contains_key(p)]
                #![trigger last_touch(s, i as int, p)]
                rename_dest@.contains_key(p) == (last_touch(s, i as int, p) is Some
                    && s[last_touch(s, i as int, p)->0].is_move()),
            forall|p: Seq<char>| #[trigger]
                rename_dest@.contains_key(p) ==> rename_dest@[p] == last_touch(s, i as int, p)->0,
            forall|m: int|
                0 <= m < i ==> #[trigger] adds@[m] == match moved_before(s, m) {
                    Some(j) => s[j] is Rename,
                    None => false,
                },
            forall|j: int|
                0 <= j < n ==> #[trigger] used@[j] == then_modified(s, j, i as int),
        decreases n - i,
    {
        let ghost before = used@;
        proof {
            lemma_last_touch(s, i as int, s[i as int].dest());
            assert(forall|j: int|
                then_modified(s, j, i + 1) == (then_modified(s, j, i as int) || moved_before(
                    s,
                    i as int,
                ) == Some(j))) by {
                assert forall|j: int|
                    then_modified(s, j, i + 1) == (then_modified(s, j, i as int) || moved_before(
                        s,
                        i as int,
                    ) == Some(j)) by {
                    if moved_before(s, i as int) == Some(j) {
                        assert(then_modified(s, j, i + 1));
                    }
                }
            }
        }
        let mut add = false;
        match &actions[i] {
            Action::Rename { new, .. } => {
                rename_dest.insert(new.clone(), i);
            },
            Action::Replace { new, .. } => {
                rename_dest.insert(new.clone(), i);
            },
            Action::Modify { path, .. } => {
                match rename_dest.get(path.as_str()) {
                    Some(r) => {
                        let r: usize = *r;
                        used.set(r, true);
                        if let Action::Rename { .. } = &actions[r] {
                            add = true;
                        }
                    },
                    None => {},
                }
                rename_dest.remove(path.as_str());
            },
            Action::Delete { path } => {
                rename_dest.remove(path.as_str());
            },
            Action::Add { path, .. } => {
                rename_dest.remove(path.as_str());
            },
        }
        adds.push(add);
        i += 1;
    }
    MovePairs { adds, used }
}

/// Decomposes each move that is then modified.
pub fn decompose_rename_modify(actions: Vec<Action>) -> (r: Vec<Action>)
    ensures
        r@ == decomposed(actions@),
{
    let ghost s = actions@;
    let pairs = find_moves_modified(&actions);
    let mut out: Vec<Action> = Vec::new();
    for a in it: actions
        invariant
            it.seq() == s,
            out@.len() == it.index(),
            pairs.adds@.len() == s.len(),
            pairs.used@.len() == s.len(),
            forall|m: int|
                0 <= m < s.len() ==> #[trigger] pairs.adds@[m] == match moved_before(s, m) {
                    Some(j) => s[j] is Rename,
                    None => false,
                },
            forall|j: int|
                0 <= j < s.len() ==> #[trigger] pairs.used@[j] == then_modified(
                    s,
                    j,
                    s.len() as int,
                ),
            forall|j: int| 0 <= j < out@.len() ==> #[trigger] out@[j] == decomposed_at(s, j),
    {
        let k: usize = out.len();
        if pairs.used[k] {
            match a {
                Action::Rename { old, .. } => out.push(Action::Delete { path: old }),
                Action::Replace { old, .. } => out.push(Action::Delete { path: old }),
                other => out.push(other),
            }
        } else if pairs.adds[k] {
            match a {
                Action::Modify { path, ino, dtype } => out.push(Action::Add { path, ino, dtype }),
                other => out.push(other),
            }
        } else {
            out.push(a);
        }
    }
    proof {
        assert(out@ =~= decomposed(s));
    }
    out
}

// ── Cancel what is deleted again ─────────────────────────────────────

/// True when the action is about `p`, as its path or as an end of a move.
pub open spec fn involves(a: Action, p: Seq<char>) -> bool {
    a.source() == p || a.dest() == p
}

/// The last of the first `n` actions that involves `p`.
pub open spec fn last_involving(s: Seq<Action>, n: int, p: Seq<char>) -> Option<int>
    decreases n,
{
    if n <= 0 {
        None
    } else if involves(s[n - 1], p) {
        Some(n - 1)
    } else {
        last_involving(s, n - 1, p)
    }
}

/// The write that the deletion at `d` undoes: the last action that involves
/// the path, where that is an addition or a modification.
pub open spec fn undone_by(s: Seq<Action>, d: int) -> Option<int> {
    if s[d] is Delete {
        match last_involving(s, d, s[d].dest()) {
            Some(w) => if s[w] is Add || s[w] is Modify {
                Some(w)
            } else {
                None
            },
            None => None,
        }
    } else {
        None
    }
}

/// True when one of the first `n` actions deletes what the write at `w` wrote.
pub open spec fn then_deleted(s: Seq<Action>, w: int, n: int) -> bool {
    exists|d: int| 0 <= d < n && #[trigger] undone_by(s, d) == Some(w)
}

/// True when the action at `d` deletes what an addition put there.
pub open spec fn deletes_added(s: Seq<Action>, d: int) -> bool {
    match undone_by(s, d) {
        Some(w) => s[w] is Add,
        None => false,
    }
}

/// `Add(x)`, `Delete(x)` leaves nothing; `Modify(x)`, `Delete(x)` leaves `Delete(x)`.
pub open spec fn cancelled(s: Seq<Action>) -> Seq<Action> {
    sift(
        s,
        s.len() as int,
        |i: int| !then_deleted(s, i, s.len() as int) && !deletes_added(s, i),
    )
}

proof fn lemma_last_involving(s: Seq<Action>, n: int, p: Seq<char>)
    ensures
        match last_involving(s, n, p) {
            Some(r) => 0 <= r < n && involves(s[r], p),
            None => true,
        },
    decreases n,
{
    if n > 0 && !involves(s[n - 1], p) {
        lemma_last_involving(s, n - 1, p);
    }
}

proof fn lemma_undone_bound(s: Seq<Action>, d: int)
    ensures
        match undone_by(s, d) {
            Some(w) => 0 <= w < d,
            None => true,
        },
{
    lemma_last_involving(s, d, s[d].dest());
}

/// Cancels writes that are deleted again.
pub fn cancel(actions: Vec<Action>) -> (r: Vec<Action>)
    ensures
        r@ == cancelled(actions@),
{
    let n: usize = actions.len();
    let ghost s = actions@;
    let mut add_at: StringHashMap<usize> = StringHashMap::new();
    let mut keep: Vec<bool> = flags(n, true);
    let mut i: usize = 0;
    while i < n
        invariant
            i <= n,
            n == s.len(),
            s == actions@,
            keep@.len() == n,
            forall|p: Seq<char>|
                #![trigger add_at@.contains_key(p)]
                #![trigger last_involving(s, i as int, p)]
                add_at@.contains_key(p) == (last_involving(s, i as int, p) is Some && (
                s[last_involving(s, i as int, p)->0] is Add || s[last_involving(
                    s,
                    i as int,
                    p,
                )->0] is Modify)),
            forall|p: Seq<char>| #[trigger]
                add_at@.contains_key(p) ==> add_at@[p] == last_involving(s, i as int, p)->0,
            forall|j: int|
                0 <= j < n ==> #[trigger] keep@[j] == (!then_deleted(s, j, i as int) && !(j < i
                    && deletes_added(s, j))),
        decreases n - i,
    {
        proof {
            lemma_undone_bound(s, i as int);
            lemma_last_involving(s, i as int, s[i as int].dest());
            assert forall|j: int|
                then_deleted(s, j, i + 1) == (then_deleted(s, j, i as int) || undone_by(
                    s,
                    i as int,
                ) == Some(j)) by {
                if undone_by(s, i as int) == Some(j) {
                    assert(then_deleted(s, j, i + 1));
                }
            }
            assert(!then_deleted(s, i as int, i as int)) by {
                if then_deleted(s, i as int, i as int) {
                    let d = choose|d: int|
                        0 <= d < i && #[trigger] undone_by(s, d) == Some(i as int);
                    lemma_undone_bound(s, d);
                }
            }
        }
        match &actions[i] {
            Action::Add { path, .. } => {
                add_at.insert(path.clone(), i);
            },
            Action::Modify { path, .. } => {
                add_at.insert(path.clone(), i);
            },
            Action::Delete { path } => {
                match add_at.get(path.as_str()) {
                    Some(w) => {
                        let w: usize = *w;
                        keep.set(w, false);
                        if let Action::Add { .. } = &actions[w] {
                            keep.set(i, false);
                        }
                    },
                    None => {},
                }
                add_at.remove(path.as_str());
            },
            Action::Rename { old, new, .. } => {
                add_at.remove(old.as_str());
                add_at.remove(new.as_str());
            },
            Action::Replace { old, new, .. } => {
                add_at.remove(old.as_str());
                add_at.remove(new.as_str());
            },
        }
        i += 1;
    }
    proof {
        crate::sift::lemma_sift_same(
            s,
            n as int,
            |i: int| keep@[i],
            |i: int| !then_deleted(s, i, s.len() as int) && !deletes_added(s, i),
        );
    }
    keep_flagged(actions, &keep)
}

// ── Merge modifications of one path ──────────────────────────────────

/// True when one of the actions up to `n` modifies the path that the
/// modification at `i` modifies.
pub open spec fn modified_again(s: Seq<Action>, i: int, n: int) -> bool {
    s[i] is Modify && exists|j: int|
        i < j < n && (#[trigger] s[j]) is Modify && s[j].dest() == s[i].dest()
}

/// Of the modifications of one path only the last is left.
pub open spec fn merged(s: Seq<Action>) -> Seq<Action> {
    sift(s, s.len() as int, |i: int| !modified_again(s, i, s.len() as int))
}

/// Leaves only the last modification of each path.
pub fn merge_modifies(actions: Vec<Action>) -> (r: Vec<Action>)
    ensures
        r@ == merged(actions@),
{
    let n: usize = actions.len();
    let ghost s = actions@;
    let mut modify_at: StringHashMap<usize> = StringHashMap::new();
    let mut keep: Vec<bool> = flags(n, true);
    let mut i: usize = 0;
    while i < n
        invariant
            i <= n,
            n == s.len(),
            s == actions@,
            keep@.len() == n,
            forall|p: Seq<char>| #[trigger]
                modify_at@.contains_key(p) ==> modify_at@[p] < i && s[modify_at@[p] as int] is Modify
                    && s[modify_at@[p] as int].dest() == p && !modified_again(
                    s,
                    modify_at@[p] as int,
                    i as int,
                ),
            forall|j: int|
                0 <= j < i && (#[trigger] s[j]) is Modify && !modified_again(s, j, i as int)
                    ==> modify_at@.contains_key(s[j].dest()) && modify_at@[s[j].dest()] == j,
            forall|j: int|
                0 <= j < n ==> #[trigger] keep@[j] == !modified_again(s, j, i as int),
        decreases n - i,
    {
        let ghost before = modify_at@;
        proof {
            assert forall|j: int| 0 <= j < n implies #[trigger] modified_again(s, j, i + 1) == (
            modified_again(s, j, i as int) || (j < i && s[j] is Modify && s[i as int] is Modify
                && s[i as int].dest() == s[j].dest())) by {
                if j < i && s[j] is Modify && s[i as int] is Modify && s[i as int].dest()
                    == s[j].dest() {
                    assert(modified_again(s, j, i + 1));
                }
            }
            assert(!modified_again(s, i as int, i + 1));
        }
        match &actions[i] {
            Action::Modify { path, .. } => {
                match modify_at.get(path.as_str()) {
                    Some(j) => {
                        let j: usize = *j;
                        keep.set(j, false);
                    },
                    None => {},
                }
                modify_at.insert(path.clone(), i);
            },
            _ => {},
        }
        i += 1;
    }
    proof {
        crate::sift::lemma_sift_same(
            s,
            n as int,
            |i: int| keep@[i],
            |i: int| !modified_again(s, i, s.len() as int),
        );
    }
    keep_flagged(actions, &keep)
}

/// After merging, no path is modified twice.
pub proof fn law_merged_once(s: Seq<Action>)
    ensures
        forall|i: int, j: int|
            0 <= i < j < merged(s).len() && (#[trigger] merged(s)[i]) is Modify && (
            #[trigger] merged(s)[j]) is Modify ==> merged(s)[i].dest() != merged(s)[j].dest(),
{
    let keep = |i: int| !modified_again(s, i, s.len() as int);
    let pos = lemma_sift_positions(s, s.len() as int, keep);
    assert forall|i: int, j: int|
        0 <= i < j < merged(s).len() && (#[trigger] merged(s)[i]) is Modify && (#[trigger] merged(
            s,
        )[j]) is Modify implies merged(s)[i].dest() != merged(s)[j].dest() by {
        assert(keep(pos[i]));
        assert(s[pos[j]] == merged(s)[j]);
    }
}

} // verus!
