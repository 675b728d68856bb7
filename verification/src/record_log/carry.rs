//! That a commit of the record log leaves in base what the records left.
use super::commit::{step_of, steps_of};
use super::effect::{
    base_at, base_files, given, is_origin, law_resolve_keeps_effect, records_done, records_fit,
    stands, Content, Files, Paths,
};
use super::resolve::{
    are_changes_of, at_path, delete_at, gathered, listed, origin_at, rename_at, replayed, write_at,
    Change, Staged, State,
};
use super::types::Record;
use crate::commit::StepView;
use crate::pathmap::{entries_map, lemma_entries_map, sorted_keys};
use crate::text::{law_str_lt_total, str_lt};
use vstd::prelude::*;

verus! {

/// What stands where after a step. A move of nothing does nothing.
pub open spec fn step_done(f: Files, s: StepView) -> Files {
    match s {
        StepView::Place(path, ino) => given(f, path, Some(Content::Staged(ino))),
        StepView::Remove(path) => given(f, path, None),
        StepView::Move { from, to, .. } => if f(from) is None {
            f
        } else {
            given(given(f, from, None), to, f(from))
        },
    }
}

/// What stands where after the steps, one after the other.
pub open spec fn steps_done(f: Files, s: Seq<StepView>) -> Files
    decreases s.len(),
{
    if s.len() == 0 {
        f
    } else {
        step_done(steps_done(f, s.drop_last()), s.last())
    }
}

/// Something has been renamed from `p` to elsewhere.
pub open spec fn left(m: State, p: Seq<char>) -> bool {
    exists|q: Seq<char>| q != p && #[trigger] origin_at(m, q) == Some(p)
}

/// A rename may put something at `p`: base has something where it comes from,
/// or another rename goes there.
pub open spec fn arrives(base: Paths, m: State, p: Seq<char>) -> bool {
    match origin_at(m, p) {
        Some(o) => o != p && (base.contains(o) || origin_at(m, o) is Some),
        None => false,
    }
}

/// A rename to `p` that writes nothing gets its turn in time. Renames are
/// carried out in the order of the paths that they go to: nothing arrives
/// where it comes from before it, nothing else takes what it is to move before
/// it or what it has moved after it, and where it has nothing to move, nothing
/// is left at `p`.
pub open spec fn in_time(base: Paths, m: State, p: Seq<char>) -> bool {
    match at_path(m, p) {
        Some(Staged::Rename { origin, ino: None, .. }) => {
            let o = origin@;
            if o == p {
                base.contains(p) ==> !left(m, p)
            } else {
                &&& !(str_lt(o, p) && arrives(base, m, o))
                &&& if base.contains(o) {
                    forall|x: Seq<char>|
                        {
                            &&& #[trigger] origin_at(m, x) == Some(o) ==> x == p || x == o
                                || !str_lt(x, p)
                            &&& origin_at(m, x) == Some(p) ==> str_lt(x, p)
                        }
                } else {
                    base.contains(p) ==> left(m, p)
                }
            }
        },
        _ => true,
    }
}

/// The renames of the state do not get in each other's way.
pub open spec fn renames_apart(base: Paths, m: State) -> bool {
    forall|p: Seq<char>| #[trigger] in_time(base, m, p)
}

/// What base has at a path that nothing has been renamed from.
spec fn remaining(base: Paths, k: State, q: Seq<char>) -> Option<Content> {
    if left(k, q) {
        None
    } else {
        base_at(base, q)
    }
}

/// Where a rename that writes nothing comes from.
spec fn bare_origin(m: State, q: Seq<char>) -> Option<Seq<char>> {
    match at_path(m, q) {
        Some(Staged::Rename { origin, ino: None, .. }) => if origin@ == q {
            None
        } else {
            Some(origin@)
        },
        _ => None,
    }
}

/// What stands where after the renames of `k`, which are the first ones of `m`:
/// what base has, except at paths that have been left and where something has
/// arrived. Where what has arrived is written over later, nothing is said.
spec fn renamed(base: Paths, m: State, k: State, f: Files) -> bool {
    forall|q: Seq<char>|
        {
            &&& !(at_path(k, q) is Some && arrives(base, m, q)) ==> #[trigger] f(q) == remaining(
                base,
                k,
                q,
            )
            &&& at_path(k, q) is Some && bare_origin(m, q) is Some ==> f(q) == if base.contains(
                bare_origin(m, q)->0,
            ) {
                Some(Content::Base(bare_origin(m, q)->0))
            } else {
                remaining(base, k, q)
            }
        }
}

/// What stands where after the writes of `k`, from `f`.
spec fn rewritten(f: Files, k: State, q: Seq<char>) -> Option<Content> {
    match at_path(k, q) {
        Some(Staged::Stage { ino, .. }) => Some(Content::Staged(ino)),
        Some(Staged::Rename { ino: Some(ino), .. }) => Some(Content::Staged(ino)),
        _ => f(q),
    }
}

/// What stands where after the deletions of `k`, from `f`.
spec fn cleared(f: Files, k: State, q: Seq<char>) -> Option<Content> {
    if at_path(k, q) == Some(Staged::Delete) {
        None
    } else {
        f(q)
    }
}

proof fn lemma_steps_push(f: Files, s: Seq<Change>, c: Change)
    ensures
        steps_done(f, steps_of(s.push(c))) == step_done(steps_done(f, steps_of(s)), step_of(c)),
{
    assert(steps_of(s.push(c)).drop_last() =~= steps_of(s));
}

proof fn lemma_steps_join(f: Files, a: Seq<Change>, b: Seq<Change>)
    ensures
        steps_done(f, steps_of(a + b)) == steps_done(steps_done(f, steps_of(a)), steps_of(b)),
    decreases b.len(),
{
    if b.len() == 0 {
        assert(a + b =~= a);
        assert(steps_of(b) =~= Seq::empty());
    } else {
        lemma_steps_join(f, a, b.drop_last());
        lemma_steps_push(f, a + b.drop_last(), b.last());
        lemma_steps_push(steps_done(f, steps_of(a)), b.drop_last(), b.last());
        assert((a + b.drop_last()).push(b.last()) =~= a + b);
        assert(b.drop_last().push(b.last()) =~= b);
    }
}

/// The entries before the one at `k` are about lesser paths, and what they say
/// is what all of them say.
proof fn lemma_entries_before(s: Seq<(String, Staged)>, k: int)
    requires
        sorted_keys(s),
        0 <= k < s.len(),
    ensures
        entries_map(s.take(k + 1)) == entries_map(s.take(k)).insert(s[k].0@, s[k].1),
        at_path(entries_map(s.take(k)), s[k].0@) is None,
        at_path(entries_map(s), s[k].0@) == Some(s[k].1),
        forall|q: Seq<char>| #[trigger]
            at_path(entries_map(s.take(k)), q) is Some ==> at_path(entries_map(s.take(k)), q)
                == at_path(entries_map(s), q) && str_lt(q, s[k].0@),
{
    let t = s.take(k);
    assert(s.take(k + 1).drop_last() =~= t);
    assert(sorted_keys(t)) by {
        assert forall|i: int, j: int| 0 <= i < j < t.len() implies str_lt(
            (#[trigger] t[i]).0@,
            (#[trigger] t[j]).0@,
        ) by {
            assert(t[i] == s[i] && t[j] == s[j]);
        }
    }
    lemma_entries_map(s);
    lemma_entries_map(t);
    if entries_map(t).contains_key(s[k].0@) {
        let i = choose|i: int| 0 <= i < t.len() && (#[trigger] t[i]).0@ == s[k].0@;
        assert(t[i] == s[i]);
        law_str_lt_total(s[k].0@, s[k].0@);
    }
    assert forall|q: Seq<char>| #[trigger] at_path(entries_map(t), q) is Some implies at_path(
        entries_map(t),
        q,
    ) == at_path(entries_map(s), q) && str_lt(q, s[k].0@) by {
        let i = choose|i: int| 0 <= i < t.len() && (#[trigger] t[i]).0@ == q;
        assert(t[i] == s[i]);
    }
}

/// One more rename.
proof fn lemma_rename_step(base: Paths, m: State, k: State, e: (String, Staged), f: Files)
    requires
        renames_apart(base, m),
        at_path(k, e.0@) is None,
        at_path(m, e.0@) == Some(e.1),
        forall|q: Seq<char>| #[trigger]
            at_path(k, q) is Some ==> at_path(k, q) == at_path(m, q) && str_lt(q, e.0@),
        renamed(base, m, k, f),
    ensures
        ({
            let n = k.insert(e.0@, e.1);
            match rename_at(e) {
                Some(c) => renamed(base, m, n, step_done(f, step_of(c))),
                None => renamed(base, m, n, f),
            }
        }),
{
    let p = e.0@;
    let n = k.insert(p, e.1);
    assert forall|q: Seq<char>| #[trigger] origin_at(k, q) is Some implies origin_at(k, q)
        == origin_at(m, q) && str_lt(q, p) by {
        assert(at_path(k, q) == at_path(m, q));
    }
    let from = origin_at(m, p);
    assert(origin_at(n, p) == from);
    assert forall|q: Seq<char>| from != Some(q) || q == p implies left(n, q) == #[trigger] left(
        k,
        q,
    ) by {
        if left(k, q) {
            let x = choose|x: Seq<char>| x != q && #[trigger] origin_at(k, x) == Some(q);
            assert(origin_at(n, x) == Some(q));
        }
        if left(n, q) {
            let x = choose|x: Seq<char>| x != q && #[trigger] origin_at(n, x) == Some(q);
            assert(origin_at(k, x) == Some(q));
        }
    }
    match rename_at(e) {
        Some(c) => {
            let o = from->0;
            let g = step_done(f, step_of(c));
            assert(left(n, o)) by {
                assert(origin_at(n, p) == Some(o));
            }
            lemma_rename_finds(base, m, k, p, f);
            assert forall|q: Seq<char>|
                {
                    &&& !(at_path(n, q) is Some && arrives(base, m, q)) ==> #[trigger] g(q)
                        == remaining(base, n, q)
                    &&& at_path(n, q) is Some && bare_origin(m, q) is Some ==> g(q)
                        == if base.contains(bare_origin(m, q)->0) {
                        Some(Content::Base(bare_origin(m, q)->0))
                    } else {
                        remaining(base, n, q)
                    }
                } by {
                if q != o {
                    assert(left(n, q) == left(k, q));
                } else {
                    assert(in_time(base, m, o));
                    assert(origin_at(m, p) == Some(o));
                    law_str_lt_total(o, p);
                }
            }
        },
        None => {
            assert forall|q: Seq<char>| #[trigger] left(n, q) == left(k, q) by {
                if from == Some(q) {
                    assert(q == p);
                }
            }
            assert forall|q: Seq<char>|
                {
                    &&& !(at_path(n, q) is Some && arrives(base, m, q)) ==> #[trigger] f(q)
                        == remaining(base, n, q)
                    &&& at_path(n, q) is Some && bare_origin(m, q) is Some ==> f(q)
                        == if base.contains(bare_origin(m, q)->0) {
                        Some(Content::Base(bare_origin(m, q)->0))
                    } else {
                        remaining(base, n, q)
                    }
                } by {
                assert(left(n, q) == left(k, q));
            }
        },
    }
}

/// What a rename finds to move when its turn comes.
proof fn lemma_rename_finds(base: Paths, m: State, k: State, p: Seq<char>, f: Files)
    requires
        renames_apart(base, m),
        origin_at(m, p) is Some,
        origin_at(m, p) != Some(p),
        at_path(k, p) is None,
        forall|q: Seq<char>| #[trigger] origin_at(k, q) is Some ==> origin_at(k, q) == origin_at(
            m,
            q,
        ) && str_lt(q, p),
        forall|q: Seq<char>| #[trigger]
            at_path(k, q) is Some ==> at_path(k, q) == at_path(m, q) && str_lt(q, p),
        renamed(base, m, k, f),
    ensures
        ({
            let o = origin_at(m, p)->0;
            &&& bare_origin(m, p) is Some ==> f(o) == base_at(base, o)
            &&& !arrives(base, m, p) ==> f(o) is None
            &&& f(p) == remaining(base, k, p)
        }),
{
    let o = origin_at(m, p)->0;
    assert(in_time(base, m, p));
    assert(f(p) == remaining(base, k, p));
    if bare_origin(m, p) is Some {
        if at_path(k, o) is Some {
            assert(str_lt(o, p));
        }
        assert(f(o) == remaining(base, k, o));
        if base.contains(o) && left(k, o) {
            let x = choose|x: Seq<char>| x != o && #[trigger] origin_at(k, x) == Some(o);
            assert(origin_at(m, x) == Some(o));
            assert(str_lt(x, p));
            assert(x != p) by {
                law_str_lt_total(p, p);
            }
        }
    }
    if !arrives(base, m, p) {
        assert(!arrives(base, m, o));
        assert(f(o) == remaining(base, k, o));
    }
}

proof fn lemma_renames(base: Paths, s: Seq<(String, Staged)>, k: int)
    requires
        sorted_keys(s),
        renames_apart(base, entries_map(s)),
        0 <= k <= s.len(),
    ensures
        ({
            let c = gathered(s, k, |e: (String, Staged)| rename_at(e));
            renamed(
                base,
                entries_map(s),
                entries_map(s.take(k)),
                steps_done(base_files(base), steps_of(c)),
            )
        }),
    decreases k,
{
    let g = |e: (String, Staged)| rename_at(e);
    if k == 0 {
        let m: State = entries_map(s.take(0));
        assert(m == Map::<Seq<char>, Staged>::empty());
        assert forall|q: Seq<char>| #[trigger] base_files(base)(q) == remaining(base, m, q) by {
            if left(m, q) {
                let x = choose|x: Seq<char>| x != q && #[trigger] origin_at(m, x) == Some(q);
            }
        }
    } else {
        lemma_renames(base, s, k - 1);
        lemma_entries_before(s, k - 1);
        let c = gathered(s, k - 1, g);
        let f = steps_done(base_files(base), steps_of(c));
        lemma_rename_step(base, entries_map(s), entries_map(s.take(k - 1)), s[k - 1], f);
        if let Some(x) = rename_at(s[k - 1]) {
            lemma_steps_push(base_files(base), c, x);
        }
    }
}

proof fn lemma_writes(s: Seq<(String, Staged)>, f: Files, k: int)
    requires
        sorted_keys(s),
        0 <= k <= s.len(),
    ensures
        ({
            let c = gathered(s, k, |e: (String, Staged)| write_at(e));
            forall|q: Seq<char>| #[trigger]
                steps_done(f, steps_of(c))(q) == rewritten(f, entries_map(s.take(k)), q)
        }),
    decreases k,
{
    if k > 0 {
        lemma_writes(s, f, k - 1);
        lemma_entries_before(s, k - 1);
        let c = gathered(s, k - 1, |e: (String, Staged)| write_at(e));
        if let Some(x) = write_at(s[k - 1]) {
            lemma_steps_push(f, c, x);
        }
    }
}

proof fn lemma_deletions(s: Seq<(String, Staged)>, f: Files, k: int)
    requires
        sorted_keys(s),
        0 <= k <= s.len(),
    ensures
        ({
            let c = gathered(s, k, |e: (String, Staged)| delete_at(e));
            forall|q: Seq<char>| #[trigger]
                steps_done(f, steps_of(c))(q) == cleared(f, entries_map(s.take(k)), q)
        }),
    decreases k,
{
    if k > 0 {
        lemma_deletions(s, f, k - 1);
        lemma_entries_before(s, k - 1);
        let c = gathered(s, k - 1, |e: (String, Staged)| delete_at(e));
        if let Some(x) = delete_at(s[k - 1]) {
            lemma_steps_push(f, c, x);
        }
    }
}

/// The steps of the changes of a state leave in base what the state says.
pub proof fn law_steps_give_state(base: Paths, m: State, c: Seq<Change>, q: Seq<char>)
    requires
        are_changes_of(c, m),
        renames_apart(base, m),
    ensures
        steps_done(base_files(base), steps_of(c))(q) == stands(base, m, q),
{
    let s = choose|s: Seq<(String, Staged)>| #[trigger]
        sorted_keys(s) && entries_map(s) == m && c == listed(s);
    let n = s.len() as int;
    assert(s.take(n) =~= s);
    let a = gathered(s, n, |e: (String, Staged)| rename_at(e));
    let b = gathered(s, n, |e: (String, Staged)| write_at(e));
    let d = gathered(s, n, |e: (String, Staged)| delete_at(e));
    let f = base_files(base);
    lemma_renames(base, s, n);
    let fa = steps_done(f, steps_of(a));
    lemma_writes(s, fa, n);
    let fb = steps_done(fa, steps_of(b));
    lemma_deletions(s, fb, n);
    lemma_steps_join(f, a, b);
    lemma_steps_join(f, a + b, d);
    assert(steps_done(f, steps_of(c))(q) == cleared(fb, m, q));
    assert(fb(q) == rewritten(fa, m, q));
    assert(renamed(base, m, m, fa));
    assert(in_time(base, m, q));
    match at_path(m, q) {
        Some(Staged::Rename { origin, ino, .. }) => {
            assert(origin_at(m, q) == Some(origin@));
        },
        None => {
            if is_origin(m, q) {
                let x = choose|x: Seq<char>| #[trigger] origin_at(m, x) == Some(q);
                assert(x != q);
            }
            if left(m, q) {
                let x = choose|x: Seq<char>| x != q && #[trigger] origin_at(m, x) == Some(q);
                assert(is_origin(m, q));
            }
        },
        _ => {},
    }
}

/// A commit leaves in base what the records, one after the other, left there.
pub proof fn law_commit_gives_effect(base: Paths, s: Seq<Record>, c: Seq<Change>, q: Seq<char>)
    requires
        records_fit(base, s),
        are_changes_of(c, replayed(s)),
        renames_apart(base, replayed(s)),
    ensures
        steps_done(base_files(base), steps_of(c))(q) == records_done(base, s)(q),
{
    law_resolve_keeps_effect(base, s);
    law_steps_give_state(base, replayed(s), c, q);
}

} // verus!
