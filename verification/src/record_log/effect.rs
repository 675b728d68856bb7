//! That the resolved changes are the final effect of the records.
use super::resolve::{
    after_delete, after_record, after_redirect, after_write, at_path, origin_at, overwritten,
    replayed, Staged, State,
};
use super::types::Record;
use crate::dtype::DType;
use vstd::prelude::*;

verus! {

/// What stands at a path: something of base, known by its path there, or a
/// staged inode.
pub enum Content {
    Base(Seq<char>),
    Staged(u64),
}

/// What stands where.
pub type Files = spec_fn(Seq<char>) -> Option<Content>;

/// The paths at which base has something.
pub type Paths = Set<Seq<char>>;

/// What base has at a path.
pub open spec fn base_at(base: Paths, p: Seq<char>) -> Option<Content> {
    if base.contains(p) {
        Some(Content::Base(p))
    } else {
        None
    }
}

/// What stands where in base.
pub open spec fn base_files(base: Paths) -> Files {
    |q: Seq<char>| base_at(base, q)
}

/// True when something has been renamed from `p`.
pub open spec fn is_origin(m: State, p: Seq<char>) -> bool {
    exists|q: Seq<char>| #[trigger] origin_at(m, q) == Some(p)
}

/// What the state says stands at a path. A path that something was renamed
/// from is empty unless something else is said of it.
pub open spec fn stands(base: Paths, m: State, p: Seq<char>) -> Option<Content> {
    match at_path(m, p) {
        Some(Staged::Stage { ino, .. }) => Some(Content::Staged(ino)),
        Some(Staged::Delete) => None,
        Some(Staged::Rename { ino: Some(ino), .. }) => Some(Content::Staged(ino)),
        Some(Staged::Rename { origin, ino: None, .. }) => base_at(base, origin@),
        None => if is_origin(m, p) {
            None
        } else {
            base_at(base, p)
        },
    }
}

/// What stands where after `p` has been given something, or nothing.
pub open spec fn given(f: Files, p: Seq<char>, c: Option<Content>) -> Files {
    |q: Seq<char>|
        if q == p {
            c
        } else {
            f(q)
        }
}

/// What stands where after `p` is redirected to `b`: at `p` what stood at `b`
/// or, where nothing did, what base has there, and at `b` nothing. A redirect
/// of a path to itself gives back what base has there.
pub open spec fn redirected(base: Paths, f: Files, p: Seq<char>, b: Seq<char>) -> Files {
    if p == b {
        given(f, p, base_at(base, b))
    } else {
        given(
            given(f, b, None),
            p,
            if f(b) is Some {
                f(b)
            } else {
                base_at(base, b)
            },
        )
    }
}

/// What stands where after a record: a write puts a staged inode there, a
/// deletion nothing, and a redirect what stood elsewhere.
pub open spec fn record_done(base: Paths, f: Files, r: Record) -> Files {
    match r {
        Record::Added { path, ino, .. } => given(f, path@, Some(Content::Staged(ino))),
        Record::Modified { path, ino, .. } => given(f, path@, Some(Content::Staged(ino))),
        Record::Deleted { path } => given(f, path@, None),
        Record::Redirect { path, base: b, .. } => redirected(base, f, path@, b@),
        Record::Replace { path, base: b, .. } => redirected(base, f, path@, b@),
        Record::Checkpoint(_) => f,
        Record::Restore { .. } => f,
    }
}

/// What stands where after the records, one after the other.
pub open spec fn records_done(base: Paths, s: Seq<Record>) -> Files
    decreases s.len(),
{
    if s.len() == 0 {
        base_files(base)
    } else {
        record_done(base, records_done(base, s.drop_last()), s.last())
    }
}

/// Base has nothing at the path, or what it has was renamed away.
pub open spec fn vacant(base: Paths, m: State, p: Seq<char>) -> bool {
    !base.contains(p) || is_origin(m, p)
}

/// A deletion of `p` fits: what is said to be new there, or was renamed to
/// there, has nothing of base below it, and nothing was put where a rename
/// came from.
pub open spec fn delete_fits(base: Paths, m: State, p: Seq<char>) -> bool {
    match at_path(m, p) {
        Some(Staged::Stage { is_new: true, .. }) => vacant(base, m, p),
        Some(Staged::Rename { origin, .. }) => origin@ == p || (vacant(base, m, p) && stands(
            base,
            m,
            origin@,
        ) is None),
        _ => true,
    }
}

/// A redirect of `p` to `b` fits: nothing was put where a rename to `p` came
/// from, and a rename to `b` has nothing of base below it.
pub open spec fn redirect_fits(base: Paths, m: State, p: Seq<char>, b: Seq<char>) -> bool {
    &&& match origin_at(m, p) {
        Some(o) => o == p || stands(base, m, o) is None || (o == b && stands(base, m, o) == base_at(
            base,
            o,
        )),
        None => true,
    }
    &&& p != b && origin_at(m, p) != Some(b) && origin_at(m, b) is Some ==> vacant(base, m, b) && (
    stands(base, m, b) is Some || !base.contains(b))
}

/// The record fits the state: it does not bring to light what of base had been
/// written over, nor take away what was put at a path that had been left.
pub open spec fn record_fits(base: Paths, m: State, r: Record) -> bool {
    match r {
        Record::Deleted { path } => delete_fits(base, m, path@),
        Record::Redirect { path, base: b, .. } => redirect_fits(base, m, path@, b@),
        Record::Replace { path, base: b, .. } => redirect_fits(base, m, path@, b@),
        _ => true,
    }
}

/// Each record fits the state that the ones before it have left.
pub open spec fn records_fit(base: Paths, s: Seq<Record>) -> bool
    decreases s.len(),
{
    s.len() == 0 || (records_fit(base, s.drop_last()) && record_fits(
        base,
        replayed(s.drop_last()),
        s.last(),
    ))
}

// ── One record ───────────────────────────────────────────────────────

/// Two states in which the same has been renamed from the same paths.
proof fn lemma_same_origins(m: State, n: State)
    requires
        forall|q: Seq<char>| #[trigger] origin_at(m, q) == origin_at(n, q),
    ensures
        forall|p: Seq<char>| #[trigger] is_origin(m, p) == is_origin(n, p),
{
    assert forall|p: Seq<char>| #[trigger] is_origin(m, p) == is_origin(n, p) by {
        if is_origin(m, p) {
            let q = choose|q: Seq<char>| #[trigger] origin_at(m, q) == Some(p);
            assert(origin_at(n, q) == Some(p));
        }
        if is_origin(n, p) {
            let q = choose|q: Seq<char>| #[trigger] origin_at(n, q) == Some(p);
            assert(origin_at(m, q) == Some(p));
        }
    }
}

/// What the state says stands where.
pub open spec fn standing(base: Paths, m: State) -> Files {
    |q: Seq<char>| stands(base, m, q)
}

proof fn lemma_write_stands(
    base: Paths,
    m: State,
    p: Seq<char>,
    dtype: Option<DType>,
    ino: u64,
    is_new: bool,
)
    ensures
        forall|q: Seq<char>| #[trigger]
            stands(base, after_write(m, p, dtype, ino, is_new), q) == given(
                standing(base, m),
                p,
                Some(Content::Staged(ino)),
            )(q),
{
    let n = after_write(m, p, dtype, ino, is_new);
    assert forall|q: Seq<char>| #[trigger] origin_at(m, q) == origin_at(n, q) by {}
    lemma_same_origins(m, n);
    assert forall|q: Seq<char>| #[trigger] stands(base, n, q) == given(
        standing(base, m),
        p,
        Some(Content::Staged(ino)),
    )(q) by {
        assert(is_origin(m, q) == is_origin(n, q));
    }
}

proof fn lemma_delete_stands(base: Paths, m: State, p: Seq<char>)
    requires
        delete_fits(base, m, p),
    ensures
        forall|q: Seq<char>| #[trigger]
            stands(base, after_delete(m, p), q) == given(standing(base, m), p, None)(q),
{
    let n = after_delete(m, p);
    let f = given(standing(base, m), p, None);
    match at_path(m, p) {
        Some(Staged::Rename { origin, .. }) => {
            let o = origin@;
            assert(origin_at(m, p) == Some(o));
            assert(is_origin(m, o));
            assert forall|q: Seq<char>| q != o && base.contains(q) implies #[trigger] is_origin(
                n,
                q,
            ) == is_origin(m, q) by {
                if is_origin(m, q) {
                    let x = choose|x: Seq<char>| #[trigger] origin_at(m, x) == Some(q);
                    assert(x != p);
                    assert(x != o);
                    assert(origin_at(n, x) == Some(q));
                }
                if is_origin(n, q) {
                    let x = choose|x: Seq<char>| #[trigger] origin_at(n, x) == Some(q);
                    assert(origin_at(m, x) == Some(q));
                }
            }
            assert forall|q: Seq<char>| #[trigger] stands(base, n, q) == f(q) by {
                if q != o && base.contains(q) {
                    assert(is_origin(n, q) == is_origin(m, q));
                }
            }
        },
        _ => {
            assert forall|q: Seq<char>| #[trigger] origin_at(m, q) == origin_at(n, q) by {}
            lemma_same_origins(m, n);
            assert forall|q: Seq<char>| #[trigger] stands(base, n, q) == f(q) by {
                assert(is_origin(n, q) == is_origin(m, q));
            }
        },
    }
}

proof fn lemma_redirect_stands(
    base: Paths,
    m: State,
    p: Seq<char>,
    dtype: Option<DType>,
    b: String,
    overwrites: bool,
)
    requires
        redirect_fits(base, m, p, b@),
    ensures
        forall|q: Seq<char>| #[trigger]
            stands(base, after_redirect(m, p, dtype, b, overwrites), q) == redirected(
                base,
                standing(base, m),
                p,
                b@,
            )(q),
{
    let n = after_redirect(m, p, dtype, b, overwrites);
    let f = redirected(base, standing(base, m), p, b@);
    let o = origin_at(m, p);
    let m1 = overwritten(m, p);
    if let Some(x) = o {
        assert(is_origin(m, x));
    }
    if let Some(x) = origin_at(m, b@) {
        assert(is_origin(m, x));
    }
    if let Some(x) = origin_at(n, p) {
        assert(is_origin(n, x));
    }
    assert forall|q: Seq<char>| base.contains(q) && o != Some(q) && (q != b@ || (origin_at(
        m,
        b@,
    ) is Some && p != b@)) implies #[trigger] is_origin(n, q) == is_origin(m, q) by {
        if is_origin(m, q) {
            let x = choose|x: Seq<char>| #[trigger] origin_at(m, x) == Some(q);
            assert(x != p);
            if x == b@ {
                assert(origin_at(n, p) == Some(q));
            } else if o == Some(x) {
                assert(at_path(m, x) is Some);
                assert(is_origin(m, x));
            } else {
                assert(origin_at(n, x) == Some(q));
            }
        }
        if is_origin(n, q) {
            let x = choose|x: Seq<char>| #[trigger] origin_at(n, x) == Some(q);
            if x == p {
                assert(origin_at(m, b@) == Some(q));
            } else {
                assert(origin_at(m, x) == Some(q));
            }
        }
    }
    assert forall|q: Seq<char>| #[trigger] stands(base, n, q) == f(q) by {
        if base.contains(q) && o != Some(q) && (q != b@ || (origin_at(m, b@) is Some && p != b@)) {
            assert(is_origin(n, q) == is_origin(m, q));
        }
    }
}

/// After a record the state says of every path what the record leaves there.
pub proof fn law_record_stands(base: Paths, m: State, r: Record)
    requires
        record_fits(base, m, r),
    ensures
        forall|q: Seq<char>| #[trigger]
            stands(base, after_record(m, r), q) == record_done(base, standing(base, m), r)(q),
{
    match r {
        Record::Added { path, dtype, ino } => {
            lemma_write_stands(base, m, path@, dtype, ino, true);
        },
        Record::Modified { path, dtype, ino } => {
            lemma_write_stands(base, m, path@, dtype, ino, false);
        },
        Record::Deleted { path } => {
            lemma_delete_stands(base, m, path@);
        },
        Record::Redirect { path, dtype, base: b } => {
            lemma_redirect_stands(base, m, path@, dtype, b, false);
        },
        Record::Replace { path, dtype, base: b } => {
            lemma_redirect_stands(base, m, path@, dtype, b, true);
        },
        Record::Checkpoint(_) => {},
        Record::Restore { .. } => {},
    }
}

/// The state that the records resolve to says of every path what the records,
/// one after the other, leave there: resolving keeps the final effect.
pub proof fn law_resolve_keeps_effect(base: Paths, s: Seq<Record>)
    requires
        records_fit(base, s),
    ensures
        forall|q: Seq<char>| #[trigger]
            stands(base, replayed(s), q) == records_done(base, s)(q),
    decreases s.len(),
{
    if s.len() == 0 {
        assert forall|q: Seq<char>| #[trigger]
            stands(base, replayed(s), q) == records_done(base, s)(q) by {
            assert(!is_origin(replayed(s), q)) by {
                if is_origin(replayed(s), q) {
                    let x = choose|x: Seq<char>| #[trigger] origin_at(replayed(s), x) == Some(q);
                }
            }
        }
    } else {
        let t = s.drop_last();
        law_resolve_keeps_effect(base, t);
        law_record_stands(base, replayed(t), s.last());
        assert forall|q: Seq<char>| #[trigger]
            stands(base, replayed(s), q) == records_done(base, s)(q) by {
            assert(stands(base, replayed(t), q) == records_done(base, t)(q));
        }
    }
}

} // verus!
