//! What replaying actions leaves behind, and that compacting keeps it.
use super::compact::compacted;
use super::passes::{
    actions_of, cancelled, decomposed, decomposed_at, deletes_added, involves, last_involving,
    last_touch, merged, modified_again, moved_before, then_deleted, then_modified, undone_by,
};
use super::types::{Action, Record};
use crate::sift::sift;
use vstd::prelude::*;

verus! {

// ── Replaying ────────────────────────────────────────────────────────

/// What stands at a path: something of base, or a staged inode.
pub enum Content {
    Base(int),
    Staged(u64),
}

/// What stands where.
pub type Files = Map<Seq<char>, Content>;

/// What stands at a path, if anything does.
pub open spec fn at(m: Files, p: Seq<char>) -> Option<Content> {
    if m.contains_key(p) {
        Some(m[p])
    } else {
        None
    }
}

/// What stands where after an action. A move of nothing changes nothing.
pub open spec fn replay_one(m: Files, a: Action) -> Files {
    match a {
        Action::Add { path, ino, .. } => m.insert(path@, Content::Staged(ino)),
        Action::Modify { path, ino, .. } => m.insert(path@, Content::Staged(ino)),
        Action::Delete { path } => m.remove(path@),
        Action::Rename { old, new, .. } => if m.contains_key(old@) {
            m.remove(old@).insert(new@, m[old@])
        } else {
            m
        },
        Action::Replace { old, new, .. } => if m.contains_key(old@) {
            m.remove(old@).insert(new@, m[old@])
        } else {
            m
        },
    }
}

/// What stands where after the actions, one after the other.
pub open spec fn replay(m: Files, s: Seq<Action>) -> Files
    decreases s.len(),
{
    if s.len() == 0 {
        m
    } else {
        replay_one(replay(m, s.drop_last()), s.last())
    }
}

proof fn lemma_replay_step(m: Files, s: Seq<Action>, k: int)
    requires
        0 <= k < s.len(),
    ensures
        replay(m, s.take(k + 1)) == replay_one(replay(m, s.take(k)), s[k]),
{
    assert(s.take(k + 1).drop_last() =~= s.take(k));
}

pub(crate) proof fn lemma_sift_step(m: Files, s: Seq<Action>, k: int, keep: spec_fn(int) -> bool)
    requires
        0 <= k < s.len(),
    ensures
        replay(m, sift(s, k + 1, keep)) == (if keep(k) {
            replay_one(replay(m, sift(s, k, keep)), s[k])
        } else {
            replay(m, sift(s, k, keep))
        }),
{
    if keep(k) {
        let t = sift(s, k, keep);
        assert(t.push(s[k]).drop_last() =~= t);
    }
}

/// Two results that agree at every path are the same.
pub(crate) proof fn lemma_same_files(a: Files, b: Files)
    requires
        forall|p: Seq<char>| #[trigger] at(a, p) == at(b, p),
    ensures
        a == b,
{
    assert forall|p: Seq<char>| #[trigger] a.contains_key(p) == b.contains_key(p) by {
        assert(at(a, p) == at(b, p));
    }
    assert forall|p: Seq<char>| #[trigger] a.contains_key(p) implies a[p] == b[p] by {
        assert(at(a, p) == at(b, p));
    }
    assert(a =~= b);
}

// ── Decomposing ──────────────────────────────────────────────────────

/// What a move puts at a path is not moved on before it is modified there.
pub open spec fn moved_stay_until_modified(s: Seq<Action>) -> bool {
    forall|k: int, m: int|
        #![trigger s[k], moved_before(s, m)]
        0 <= k < m < s.len() && s[k].is_move() && moved_before(s, m) is Some && moved_before(
            s,
            m,
        )->0 < k ==> s[k].source() != s[m].dest()
}

/// True when, after the first `k` actions, a move to `p` has been seen and the
/// modification that it is decomposed with has not.
spec fn move_pending(s: Seq<Action>, k: int, p: Seq<char>) -> bool {
    exists|m: int|
        k <= m < s.len() && #[trigger] moved_before(s, m) is Some && moved_before(s, m)->0 < k
            && s[m].dest() == p
}

proof fn lemma_moved_before(s: Seq<Action>, m: int)
    requires
        0 <= m < s.len(),
        moved_before(s, m) is Some,
    ensures
        0 <= moved_before(s, m)->0 < m,
        s[moved_before(s, m)->0].is_move(),
        s[moved_before(s, m)->0].dest() == s[m].dest(),
        s[m] is Modify,
        forall|j: int|
            moved_before(s, m)->0 < j < m ==> (#[trigger] s[j]).dest() != s[m].dest(),
{
    lemma_last_touch_last(s, m, s[m].dest());
}

proof fn lemma_last_touch_last(s: Seq<Action>, n: int, p: Seq<char>)
    ensures
        match last_touch(s, n, p) {
            Some(r) => 0 <= r < n && s[r].dest() == p && (forall|j: int|
                r < j < n ==> (#[trigger] s[j]).dest() != p),
            None => true,
        },
    decreases n,
{
    if n > 0 && s[n - 1].dest() != p {
        lemma_last_touch_last(s, n - 1, p);
    }
}

proof fn lemma_decompose_agrees(s: Seq<Action>, m: Files, k: int)
    requires
        0 <= k <= s.len(),
        moved_stay_until_modified(s),
    ensures
        forall|p: Seq<char>|
            !move_pending(s, k, p) ==> #[trigger] at(replay(m, s.take(k)), p) == at(
                replay(m, decomposed(s).take(k)),
                p,
            ),
    decreases k,
{
    let d = decomposed(s);
    if k == 0 {
        assert(s.take(0) =~= Seq::<Action>::empty());
        assert(d.take(0) =~= Seq::<Action>::empty());
    } else {
        let i = k - 1;
        lemma_decompose_agrees(s, m, i);
        lemma_replay_step(m, s, i);
        lemma_replay_step(m, d, i);
        let a = replay(m, s.take(i));
        let b = replay(m, d.take(i));
        assert(d[i] == decomposed_at(s, i));
        assert forall|p: Seq<char>| !move_pending(s, k, p) implies #[trigger] at(
            replay(m, s.take(k)),
            p,
        ) == at(replay(m, d.take(k)), p) by {
            // A pending move to `p` is over only if the action at `i` modifies `p`.
            if move_pending(s, i, p) {
                let q = choose|q: int|
                    i <= q < s.len() && #[trigger] moved_before(s, q) is Some && moved_before(
                        s,
                        q,
                    )->0 < i && s[q].dest() == p;
                if q > i {
                    assert(moved_before(s, q)->0 < k);
                    assert(move_pending(s, k, p));
                }
                assert(q == i);
                lemma_moved_before(s, i);
            } else {
                assert(at(a, p) == at(b, p));
            }
            if then_modified(s, i, s.len() as int) {
                let q = choose|q: int|
                    0 <= q < s.len() && #[trigger] moved_before(s, q) == Some(i);
                lemma_moved_before(s, q);
                assert(moved_before(s, q)->0 < k);
                if p == s[i].dest() {
                    assert(move_pending(s, k, p));
                }
                assert(at(replay_one(a, s[i]), p) == at(replay_one(b, d[i]), p));
            } else if s[i].is_move() {
                assert(moved_before(s, i) is None);
                let from = s[i].source();
                if move_pending(s, i, from) {
                    let q = choose|q: int|
                        i <= q < s.len() && #[trigger] moved_before(s, q) is Some && moved_before(
                            s,
                            q,
                        )->0 < i && s[q].dest() == from;
                    lemma_moved_before(s, q);
                    assert(s[i].source() != s[q].dest());
                }
                assert(at(a, from) == at(b, from));
                assert(at(replay_one(a, s[i]), p) == at(replay_one(b, d[i]), p));
            } else {
                assert(at(replay_one(a, s[i]), p) == at(replay_one(b, d[i]), p));
            }
        }
    }
}

/// Decomposing keeps what replaying leaves behind, where what a move puts at a
/// path is not moved on before it is modified there.
pub proof fn law_decompose_keeps_effect(s: Seq<Action>, m: Files)
    requires
        moved_stay_until_modified(s),
    ensures
        replay(m, decomposed(s)) == replay(m, s),
{
    lemma_decompose_agrees(s, m, s.len() as int);
    assert(s.take(s.len() as int) =~= s);
    assert(decomposed(s).take(s.len() as int) =~= decomposed(s));
    assert forall|p: Seq<char>| #[trigger] at(replay(m, s), p) == at(
        replay(m, decomposed(s)),
        p,
    ) by {
        assert(!move_pending(s, s.len() as int, p));
    }
    lemma_same_files(replay(m, s), replay(m, decomposed(s)));
}

// ── Cancelling ───────────────────────────────────────────────────────

/// Where an addition is deleted again, nothing stood at its path before.
pub open spec fn cancelled_adds_are_new(s: Seq<Action>, m: Files) -> bool {
    forall|i: int|
        0 <= i < s.len() && #[trigger] s[i] is Add && then_deleted(s, i, s.len() as int) ==> at(
            replay(m, s.take(i)),
            s[i].dest(),
        ) is None
}

/// True when the deletion at `d` undoes a write to `p` among the first `k`
/// actions and is not among them itself.
spec fn undoes_pending(s: Seq<Action>, k: int, p: Seq<char>, d: int) -> bool {
    k <= d < s.len() && undone_by(s, d) is Some && undone_by(s, d)->0 < k && s[d].dest() == p
}

/// True when, after the first `k` actions, a write to `p` has been seen and
/// the deletion that undoes it has not.
spec fn write_pending(s: Seq<Action>, k: int, p: Seq<char>) -> bool {
    exists|d: int| #[trigger] undoes_pending(s, k, p, d)
}

proof fn lemma_last_involving_last(s: Seq<Action>, n: int, p: Seq<char>)
    ensures
        match last_involving(s, n, p) {
            Some(r) => 0 <= r < n && involves(s[r], p) && (forall|j: int|
                r < j < n ==> !involves(#[trigger] s[j], p)),
            None => true,
        },
    decreases n,
{
    if n > 0 && !involves(s[n - 1], p) {
        lemma_last_involving_last(s, n - 1, p);
    }
}

proof fn lemma_undone(s: Seq<Action>, d: int)
    requires
        0 <= d < s.len(),
        undone_by(s, d) is Some,
    ensures
        0 <= undone_by(s, d)->0 < d,
        s[d] is Delete,
        s[undone_by(s, d)->0] is Add || s[undone_by(s, d)->0] is Modify,
        s[undone_by(s, d)->0].dest() == s[d].dest(),
        forall|j: int|
            undone_by(s, d)->0 < j < d ==> !involves(#[trigger] s[j], s[d].dest()),
{
    lemma_last_involving_last(s, d, s[d].dest());
}

/// The positions that cancelling keeps.
spec fn kept_by_cancel(s: Seq<Action>) -> spec_fn(int) -> bool {
    |i: int| !then_deleted(s, i, s.len() as int) && !deletes_added(s, i)
}

/// What holds after the first `k` actions: the two results agree but at paths
/// with a pending write, and nothing stands at those whose addition is left out.
spec fn cancel_agrees(s: Seq<Action>, m: Files, k: int) -> bool {
    let a = replay(m, s.take(k));
    let b = replay(m, sift(s, k, kept_by_cancel(s)));
    &&& forall|p: Seq<char>| !write_pending(s, k, p) ==> #[trigger] at(a, p) == at(b, p)
    &&& forall|p: Seq<char>, d: int|
        #![trigger undoes_pending(s, k, p, d), at(b, p)]
        undoes_pending(s, k, p, d) && s[undone_by(s, d)->0] is Add ==> at(b, p) is None
}

/// An action that involves a path with a pending write is the deletion itself.
proof fn lemma_pending_write_untouched(s: Seq<Action>, k: int, p: Seq<char>, d: int)
    requires
        0 <= k < s.len(),
        undoes_pending(s, k, p, d),
        involves(s[k], p),
    ensures
        d == k,
{
    lemma_undone(s, d);
    if k < d {
        assert(!involves(s[k], s[d].dest()));
    }
}

proof fn lemma_cancel_step(s: Seq<Action>, m: Files, i: int)
    requires
        0 <= i < s.len(),
        cancelled_adds_are_new(s, m),
        cancel_agrees(s, m, i),
    ensures
        cancel_agrees(s, m, i + 1),
{
    let keep = kept_by_cancel(s);
    let k = i + 1;
    lemma_replay_step(m, s, i);
    lemma_sift_step(m, s, i, keep);
    let a = replay(m, s.take(i));
    let b = replay(m, sift(s, i, keep));
    let a2 = replay(m, s.take(k));
    let b2 = replay(m, sift(s, k, keep));
    let x = s[i].dest();
    let y = s[i].source();
    // What a move takes has no pending write.
    if s[i].is_move() {
        if write_pending(s, i, y) {
            let d = choose|d: int| #[trigger] undoes_pending(s, i, y, d);
            lemma_pending_write_untouched(s, i, y, d);
            lemma_undone(s, i);
        }
        assert(at(a, y) == at(b, y));
    }
    // Neither has a path that an addition puts something at.
    if s[i] is Add && write_pending(s, i, x) {
        let d = choose|d: int| #[trigger] undoes_pending(s, i, x, d);
        lemma_pending_write_untouched(s, i, x, d);
        lemma_undone(s, i);
    }
    assert forall|p: Seq<char>| !write_pending(s, k, p) implies #[trigger] at(a2, p) == at(
        b2,
        p,
    ) by {
        if write_pending(s, i, p) {
            let d = choose|d: int| #[trigger] undoes_pending(s, i, p, d);
            if d > i {
                assert(undoes_pending(s, k, p, d));
            }
            lemma_undone(s, i);
            assert(p == x);
            // The deletion itself: nothing stands at `p` on either side.
            assert(at(a2, p) is None);
            if deletes_added(s, i) {
                assert(undoes_pending(s, i, p, i));
                assert(at(b, p) is None);
            } else if then_deleted(s, i, s.len() as int) {
                let e = choose|e: int| 0 <= e < s.len() && #[trigger] undone_by(s, e) == Some(i);
                lemma_undone(s, e);
            }
        } else {
            assert(at(a, p) == at(b, p));
            if keep(i) {
                if undone_by(s, i) is Some {
                    lemma_undone(s, i);
                }
                assert(at(replay_one(a, s[i]), p) == at(replay_one(b, s[i]), p));
            } else if then_deleted(s, i, s.len() as int) {
                let e = choose|e: int| 0 <= e < s.len() && #[trigger] undone_by(s, e) == Some(i);
                lemma_undone(s, e);
                if p == x {
                    assert(undoes_pending(s, k, p, e));
                }
            } else {
                lemma_undone(s, i);
                if p == x {
                    assert(undoes_pending(s, i, p, i));
                }
            }
        }
    }
    assert forall|p: Seq<char>, d: int|
        #![trigger undoes_pending(s, k, p, d), at(b2, p)]
        undoes_pending(s, k, p, d) && s[undone_by(s, d)->0] is Add implies at(b2, p) is None by {
        lemma_undone(s, d);
        let w = undone_by(s, d)->0;
        if w == i {
            // The addition itself is left out, and nothing stood there before.
            assert(then_deleted(s, i, s.len() as int));
            assert(s[i] is Add);
            assert(at(a, x) is None);
            assert(at(b, x) is None);
        } else {
            assert(undoes_pending(s, i, p, d));
            assert(at(b, p) is None);
            assert(!involves(s[i], p));
        }
    }
}

proof fn lemma_cancel_agrees(s: Seq<Action>, m: Files, k: int)
    requires
        0 <= k <= s.len(),
        cancelled_adds_are_new(s, m),
    ensures
        cancel_agrees(s, m, k),
    decreases k,
{
    if k == 0 {
        assert(s.take(0) =~= Seq::<Action>::empty());
        assert forall|p: Seq<char>, d: int| !undoes_pending(s, 0, p, d) by {
            if undoes_pending(s, 0, p, d) {
                lemma_undone(s, d);
            }
        }
    } else {
        lemma_cancel_agrees(s, m, k - 1);
        lemma_cancel_step(s, m, k - 1);
    }
}

/// Cancelling keeps what replaying leaves behind, where nothing stood at a
/// path before an addition that is deleted again.
pub proof fn law_cancel_keeps_effect(s: Seq<Action>, m: Files)
    requires
        cancelled_adds_are_new(s, m),
    ensures
        replay(m, cancelled(s)) == replay(m, s),
{
    let n = s.len() as int;
    lemma_cancel_agrees(s, m, n);
    assert(s.take(n) =~= s);
    assert(sift(s, n, kept_by_cancel(s)) == cancelled(s));
    assert forall|p: Seq<char>| #[trigger] at(replay(m, s), p) == at(replay(m, cancelled(s)), p) by {
        assert(!write_pending(s, n, p));
    }
    lemma_same_files(replay(m, s), replay(m, cancelled(s)));
}

// ── Merging ──────────────────────────────────────────────────────────

/// Nothing is moved away from a path between two modifications of it.
pub open spec fn modified_stay(s: Seq<Action>) -> bool {
    forall|i: int, k: int, j: int|
        #![trigger s[i], s[k], s[j]]
        0 <= i < k < j < s.len() && s[i] is Modify && s[j] is Modify && s[i].dest() == s[j].dest()
            && s[k].is_move() ==> s[k].source() != s[i].dest()
}

/// True when one of the first `k` actions modifies `p` and a later one does too.
spec fn merge_pending(s: Seq<Action>, k: int, p: Seq<char>) -> bool {
    exists|i: int, j: int|
        0 <= i < k <= j < s.len() && (#[trigger] s[i]) is Modify && (#[trigger] s[j]) is Modify
            && s[i].dest() == p && s[j].dest() == p
}

/// The positions that merging keeps.
spec fn kept_by_merge(s: Seq<Action>) -> spec_fn(int) -> bool {
    |i: int| !modified_again(s, i, s.len() as int)
}

proof fn lemma_merge_agrees(s: Seq<Action>, m: Files, k: int)
    requires
        0 <= k <= s.len(),
        modified_stay(s),
    ensures
        forall|p: Seq<char>|
            !merge_pending(s, k, p) ==> #[trigger] at(replay(m, s.take(k)), p) == at(
                replay(m, sift(s, k, kept_by_merge(s))),
                p,
            ),
    decreases k,
{
    let keep = kept_by_merge(s);
    if k == 0 {
        assert(s.take(0) =~= Seq::<Action>::empty());
    } else {
        let i = k - 1;
        lemma_merge_agrees(s, m, i);
        lemma_replay_step(m, s, i);
        lemma_sift_step(m, s, i, keep);
        let a = replay(m, s.take(i));
        let b = replay(m, sift(s, i, keep));
        let x = s[i].dest();
        if s[i].is_move() {
            let y = s[i].source();
            if merge_pending(s, i, y) {
                let (u, v) = choose|u: int, v: int|
                    0 <= u < i <= v < s.len() && (#[trigger] s[u]) is Modify && (
                    #[trigger] s[v]) is Modify && s[u].dest() == y && s[v].dest() == y;
                assert(s[u] is Modify && s[i].is_move() && s[v] is Modify);
                assert(i < v);
            }
            assert(at(a, y) == at(b, y));
        }
        assert forall|p: Seq<char>| !merge_pending(s, k, p) implies #[trigger] at(
            replay(m, s.take(k)),
            p,
        ) == at(replay(m, sift(s, k, keep)), p) by {
            if merge_pending(s, i, p) {
                let (u, v) = choose|u: int, v: int|
                    0 <= u < i <= v < s.len() && (#[trigger] s[u]) is Modify && (
                    #[trigger] s[v]) is Modify && s[u].dest() == p && s[v].dest() == p;
                if v > i {
                    assert(s[u] is Modify && s[v] is Modify);
                    assert(merge_pending(s, k, p));
                }
                assert(v == i);
            } else {
                assert(at(a, p) == at(b, p));
            }
            if modified_again(s, i, s.len() as int) {
                let j = choose|j: int|
                    i < j < s.len() && (#[trigger] s[j]) is Modify && s[j].dest() == s[i].dest();
                assert(s[i] is Modify && s[j] is Modify);
                if p == x {
                    assert(merge_pending(s, k, p));
                }
            } else {
                assert(at(replay_one(a, s[i]), p) == at(replay_one(b, s[i]), p));
            }
        }
    }
}

/// Merging keeps what replaying leaves behind, where nothing is moved away
/// from a path between two modifications of it.
pub proof fn law_merge_keeps_effect(s: Seq<Action>, m: Files)
    requires
        modified_stay(s),
    ensures
        replay(m, merged(s)) == replay(m, s),
{
    let n = s.len() as int;
    lemma_merge_agrees(s, m, n);
    assert(s.take(n) =~= s);
    assert(sift(s, n, kept_by_merge(s)) == merged(s));
    assert forall|p: Seq<char>| #[trigger] at(replay(m, s), p) == at(replay(m, merged(s)), p) by {
        assert(!merge_pending(s, n, p));
    }
    lemma_same_files(replay(m, s), replay(m, merged(s)));
}

// ── All passes ───────────────────────────────────────────────────────

/// What the passes rely on, each of what the one before it hands on.
pub open spec fn compacts_safely(s: Seq<Action>, m: Files) -> bool {
    &&& moved_stay_until_modified(s)
    &&& cancelled_adds_are_new(decomposed(s), m)
    &&& modified_stay(cancelled(decomposed(s)))
}

/// Replaying the compacted list leaves behind what replaying every record
/// does, for any state of base that the records start from.
pub proof fn law_compact_keeps_effect(s: Seq<Record>, m: Files)
    requires
        compacts_safely(actions_of(s), m),
    ensures
        replay(m, compacted(s)) == replay(m, actions_of(s)),
{
    let a = actions_of(s);
    law_decompose_keeps_effect(a, m);
    law_cancel_keeps_effect(decomposed(a), m);
    law_merge_keeps_effect(cancelled(decomposed(a)), m);
}

} // verus!
