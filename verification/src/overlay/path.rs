//! Paths as sequences of names.
use crate::sift::sift;
use crate::text::{chars_of, string_of};
use vstd::prelude::*;

verus! {

/// The pieces into which the slashes among the first `n` characters cut them.
pub open spec fn slash_pieces(s: Seq<char>, n: int) -> Seq<Seq<char>>
    decreases n,
{
    if n <= 0 {
        seq![Seq::<char>::empty()]
    } else {
        let p = slash_pieces(s, n - 1);
        if s[n - 1] == '/' {
            p.push(Seq::empty())
        } else {
            p.drop_last().push(p.last().push(s[n - 1]))
        }
    }
}

/// The names of a path: what stands between its slashes, where that is not nothing.
pub open spec fn names(s: Seq<char>) -> Seq<Seq<char>> {
    let p = slash_pieces(s, s.len() as int);
    sift(p, p.len() as int, |i: int| p[i].len() > 0)
}

/// The position past the last slash among the first `n` characters, or 0.
pub open spec fn past_slash(s: Seq<char>, n: int) -> int
    decreases n,
{
    if n <= 0 {
        0
    } else if s[n - 1] == '/' {
        n
    } else {
        past_slash(s, n - 1)
    }
}

/// A path cut into the names of its directory and its last name. `None` where
/// it has no slash or ends in one.
pub open spec fn parent_and_name(s: Seq<char>) -> Option<(Seq<Seq<char>>, Seq<char>)> {
    let k = past_slash(s, s.len() as int);
    if k == 0 || k == s.len() {
        None
    } else {
        Some((names(s.take(k - 1)), s.skip(k)))
    }
}

/// The path made up of names, each after a slash.
pub open spec fn rendered(ps: Seq<Seq<char>>) -> Seq<char>
    decreases ps.len(),
{
    if ps.len() == 0 {
        Seq::empty()
    } else {
        rendered(ps.drop_last()).push('/') + ps.last()
    }
}

/// A path made up of names starts with the first of them.
pub proof fn lemma_rendered_cons(name: Seq<char>, ps: Seq<Seq<char>>)
    ensures
        rendered(seq![name] + ps) == seq!['/'] + name + rendered(ps),
    decreases ps.len(),
{
    if ps.len() == 0 {
        assert(seq![name] + ps =~= seq![name]);
        assert(seq![name].drop_last() =~= Seq::<Seq<char>>::empty());
        assert(rendered(Seq::<Seq<char>>::empty()) == Seq::<char>::empty());
        assert(seq![name].last() == name);
        assert(rendered(seq![name]) =~= seq!['/'] + name + rendered(ps));
    } else {
        lemma_rendered_cons(name, ps.drop_last());
        assert((seq![name] + ps).drop_last() =~= seq![name] + ps.drop_last());
        assert((seq![name] + ps).last() == ps.last());
        assert(rendered(seq![name] + ps) =~= seq!['/'] + name + rendered(ps));
    }
}

/// The names as mathematical values.
pub open spec fn name_views(v: Seq<String>) -> Seq<Seq<char>> {
    Seq::new(v.len(), |i: int| v[i]@)
}

/// The names in the characters `v[..to]`.
fn names_of(v: &Vec<char>, to: usize) -> (r: Vec<String>)
    requires
        to <= v@.len(),
    ensures
        name_views(r@) == names(v@.take(to as int)),
{
    let ghost s = v@.take(to as int);
    let mut out: Vec<String> = Vec::new();
    let ghost mut p: Seq<Seq<char>> = seq![];
    let mut start: usize = 0;
    let mut i: usize = 0;
    proof {
        assert(v@.subrange(0, 0) =~= Seq::<char>::empty());
        assert(p.push(v@.subrange(0, 0)) =~= slash_pieces(s, 0));
        assert(name_views(out@) =~= sift(p, 0, |i: int| p[i].len() > 0));
    }
    while i < to
        invariant
            start <= i <= to <= v@.len(),
            s == v@.take(to as int),
            p.push(v@.subrange(start as int, i as int)) == slash_pieces(s, i as int),
            name_views(out@) == sift(p, p.len() as int, |i: int| p[i].len() > 0),
        decreases to - i,
    {
        let ghost piece = v@.subrange(start as int, i as int);
        assert(s[i as int] == v@[i as int]);
        assert(p.push(piece).drop_last() =~= p);
        if v[i] == '/' {
            let ghost old_out = out@;
            if i > start {
                out.push(string_of(v, start, i));
                assert(name_views(out@) =~= name_views(old_out).push(piece));
            }
            proof {
                lemma_sift_names_push(p, piece);
                p = p.push(piece);
                assert(v@.subrange(i + 1, i + 1) =~= Seq::<char>::empty());
                assert(p.push(v@.subrange(i + 1, i + 1)) =~= slash_pieces(s, i + 1));
            }
            start = i + 1;
        } else {
            assert(v@.subrange(start as int, i + 1) =~= piece.push(v@[i as int]));
        }
        i += 1;
    }
    let ghost piece = v@.subrange(start as int, to as int);
    let ghost old_out = out@;
    if to > start {
        out.push(string_of(v, start, to));
        assert(name_views(out@) =~= name_views(old_out).push(piece));
    }
    proof {
        lemma_sift_names_push(p, piece);
    }
    out
}

proof fn lemma_sift_names_push(p: Seq<Seq<char>>, x: Seq<char>)
    ensures
        ({
            let q = p.push(x);
            let a = sift(p, p.len() as int, |i: int| p[i].len() > 0);
            sift(q, q.len() as int, |i: int| q[i].len() > 0) == if x.len() > 0 {
                a.push(x)
            } else {
                a
            }
        }),
{
    let q = p.push(x);
    lemma_sift_names_prefix(p, q, p.len() as int);
}

proof fn lemma_sift_names_prefix(p: Seq<Seq<char>>, q: Seq<Seq<char>>, n: int)
    requires
        0 <= n <= p.len(),
        n <= q.len(),
        forall|i: int| 0 <= i < n ==> #[trigger] p[i] == q[i],
    ensures
        sift(p, n, |i: int| p[i].len() > 0) == sift(q, n, |i: int| q[i].len() > 0),
    decreases n,
{
    if n > 0 {
        lemma_sift_names_prefix(p, q, n - 1);
    }
}

proof fn lemma_pieces_prefix(s: Seq<char>, t: Seq<char>, n: int)
    requires
        0 <= n <= s.len(),
        n <= t.len(),
        forall|i: int| 0 <= i < n ==> #[trigger] s[i] == t[i],
    ensures
        slash_pieces(s, n) == slash_pieces(t, n),
    decreases n,
{
    if n > 0 {
        lemma_pieces_prefix(s, t, n - 1);
        assert(s[n - 1] == t[n - 1]);
    }
}

proof fn lemma_past_slash(s: Seq<char>, n: int)
    requires
        0 <= n <= s.len(),
    ensures
        0 <= past_slash(s, n) <= n,
        past_slash(s, n) > 0 ==> s[past_slash(s, n) - 1] == '/',
        past_slash(s, n) > 0 ==> slash_pieces(s, n) == slash_pieces(
            s,
            past_slash(s, n) - 1,
        ).push(s.subrange(past_slash(s, n), n)),
    decreases n,
{
    if n > 0 {
        lemma_past_slash(s, n - 1);
        let k = past_slash(s, n);
        if s[n - 1] == '/' {
            assert(s.subrange(n, n) =~= Seq::<char>::empty());
        } else if k > 0 {
            let a = slash_pieces(s, k - 1);
            let x = s.subrange(k, n - 1);
            assert(a.push(x).drop_last() =~= a);
            assert(s.subrange(k, n) =~= x.push(s[n - 1]));
        }
    }
}

/// The names of a path are those of its directory and its last name.
pub proof fn law_names_of_parent(s: Seq<char>)
    ensures
        parent_and_name(s) matches Some((ps, name)) ==> names(s) == ps.push(name),
{
    if parent_and_name(s) is Some {
        let n = s.len() as int;
        let k = past_slash(s, n);
        lemma_past_slash(s, n);
        let a = slash_pieces(s, k - 1);
        let x = s.subrange(k, n);
        assert(x =~= s.skip(k));
        lemma_sift_names_push(a, x);
        lemma_pieces_prefix(s, s.take(k - 1), k - 1);
    }
}

/// The names of a path.
pub fn split_names(path: &str) -> (r: Vec<String>)
    ensures
        name_views(r@) == names(path@),
{
    let v = chars_of(path);
    assert(v@.take(v@.len() as int) =~= path@);
    names_of(&v, v.len())
}

/// A path cut into the names of its directory and its last name.
pub fn split_parent(path: &str) -> (r: Option<(Vec<String>, String)>)
    ensures
        match (r, parent_and_name(path@)) {
            (Some((ps, name)), Some((qs, n))) => name_views(ps@) == qs && name@ == n,
            (None, None) => true,
            _ => false,
        },
{
    let v = chars_of(path);
    let mut k: usize = v.len();
    while k > 0 && v[k - 1] != '/'
        invariant
            k <= v@.len(),
            v@ == path@,
            past_slash(path@, path@.len() as int) == past_slash(path@, k as int),
        decreases k,
    {
        k -= 1;
    }
    if k == 0 || k == v.len() {
        return None;
    }
    let name = string_of(&v, k, v.len());
    proof {
        assert(v@.subrange(k as int, v@.len() as int) =~= path@.skip(k as int));
    }
    Some((names_of(&v, k - 1), name))
}

} // verus!
