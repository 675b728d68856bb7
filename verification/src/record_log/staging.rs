//! That resolved changes and restored items say what the state says.
use super::effect::{
    base_at, is_origin, law_resolve_keeps_effect, records_done, records_fit, stands, Content, Paths,
};
use super::resolve::{
    are_changes_of, at_path, delete_at, gathered, listed, origin_at, rename_at, replayed, write_at,
    Change, Staged, State,
};
use super::restore::{
    by_path, is_staged, items_for, items_in_order, put_by_path, restore_items, writes_to, ItemView,
};
use super::types::Record;
use crate::dtype::DType;
use crate::pathmap::{entries_map, lemma_entries_map, sorted_keys};
use crate::text::law_str_lt_total;
use vstd::prelude::*;

verus! {

// ── Changes ──────────────────────────────────────────────────────────

/// The change is what the state says of its path: an addition of what is new
/// to base, a modification of what is not, a deletion, a move from elsewhere,
/// which replaces something where the state says so.
pub open spec fn told(m: State, c: Change) -> bool {
    match c {
        Change::Added { path, ino, dtype } => at_path(m, path@) == Some(
            Staged::Stage { ino, dtype, is_new: true },
        ),
        Change::Modified { path, ino, dtype } => match at_path(m, path@) {
            Some(Staged::Stage { ino: i, dtype: d, is_new }) => !is_new && i == ino && d == dtype,
            Some(Staged::Rename { ino: i, dtype: d, .. }) => i == Some(ino) && d == dtype,
            _ => false,
        },
        Change::Deleted(path) => at_path(m, path@) == Some(Staged::Delete),
        Change::Renamed { from, to, dtype } => from@ != to@ && match at_path(m, to@) {
            Some(Staged::Rename { origin, dtype: d, overwrites, .. }) => origin@ == from@ && d
                == dtype && !overwrites,
            _ => false,
        },
        Change::Replaced { from, to, dtype } => from@ != to@ && match at_path(m, to@) {
            Some(Staged::Rename { origin, dtype: d, overwrites, .. }) => origin@ == from@ && d
                == dtype && overwrites,
            _ => false,
        },
    }
}

/// The path that a change brings content to by a move.
pub open spec fn moved_to(c: Change) -> Option<Seq<char>> {
    match c {
        Change::Renamed { to, .. } => Some(to@),
        Change::Replaced { to, .. } => Some(to@),
        _ => None,
    }
}

/// The path that a change moves content from.
pub open spec fn moved_from(c: Change) -> Option<Seq<char>> {
    match c {
        Change::Renamed { from, .. } => Some(from@),
        Change::Replaced { from, .. } => Some(from@),
        _ => None,
    }
}

/// The path that a change stages an inode at.
pub open spec fn written_to(c: Change) -> Option<Seq<char>> {
    match c {
        Change::Added { path, .. } => Some(path@),
        Change::Modified { path, .. } => Some(path@),
        _ => None,
    }
}

/// Some change satisfies the predicate.
pub open spec fn some(c: Seq<Change>, f: spec_fn(Change) -> bool) -> bool {
    exists|i: int| 0 <= i < c.len() && f(#[trigger] c[i])
}

/// What the state says of a path is among the changes.
pub open spec fn tells_path(c: Seq<Change>, m: State, p: Seq<char>) -> bool {
    match at_path(m, p) {
        Some(Staged::Stage { .. }) => some(c, |x: Change| written_to(x) == Some(p)),
        Some(Staged::Delete) => some(c, |x: Change| x is Deleted && x.is_about(p)),
        Some(Staged::Rename { origin, ino, .. }) => {
            &&& origin@ != p ==> some(c, |x: Change| moved_to(x) == Some(p))
            &&& ino is Some ==> some(c, |x: Change| written_to(x) == Some(p))
        },
        None => true,
    }
}

/// The changes say what the state says: all of it, nothing else, and nothing twice.
pub open spec fn tells(c: Seq<Change>, m: State) -> bool {
    &&& forall|i: int| 0 <= i < c.len() ==> told(m, #[trigger] c[i])
    &&& forall|p: Seq<char>| #[trigger] tells_path(c, m, p)
    &&& forall|i: int, j: int|
        0 <= i < j < c.len() ==> !(moved_to(#[trigger] c[i]) is Some && moved_to(c[i]) == moved_to(
            #[trigger] c[j],
        )) && !(written_to(c[i]) is Some && written_to(c[i]) == written_to(c[j]))
}

/// What is gathered, with the positions of the entries it comes from.
proof fn lemma_gathered(
    s: Seq<(String, Staged)>,
    n: int,
    f: spec_fn((String, Staged)) -> Option<Change>,
) -> (pos: Seq<int>)
    requires
        0 <= n <= s.len(),
    ensures
        pos.len() == gathered(s, n, f).len(),
        forall|k: int|
            0 <= k < pos.len() ==> 0 <= (#[trigger] pos[k]) < n && f(s[pos[k]]) == Some(
                gathered(s, n, f)[k],
            ),
        forall|j: int, k: int| 0 <= j < k < pos.len() ==> (#[trigger] pos[j]) < (#[trigger] pos[k]),
        forall|i: int|
            0 <= i < n && f(#[trigger] s[i]) is Some ==> exists|k: int|
                0 <= k < pos.len() && #[trigger] pos[k] == i,
    decreases n,
{
    if n <= 0 {
        Seq::empty()
    } else {
        let before = lemma_gathered(s, n - 1, f);
        if f(s[n - 1]) is Some {
            let pos = before.push(n - 1);
            assert forall|i: int| 0 <= i < n && f(#[trigger] s[i]) is Some implies exists|k: int|
                0 <= k < pos.len() && #[trigger] pos[k] == i by {
                if i == n - 1 {
                    assert(pos[before.len() as int] == i);
                } else {
                    let k = choose|k: int| 0 <= k < before.len() && #[trigger] before[k] == i;
                    assert(pos[k] == i);
                }
            }
            pos
        } else {
            before
        }
    }
}

/// The changes of a state say what it says.
pub proof fn law_changes_tell_state(c: Seq<Change>, m: State)
    requires
        are_changes_of(c, m),
    ensures
        tells(c, m),
{
    let s = choose|s: Seq<(String, Staged)>| #[trigger]
        sorted_keys(s) && entries_map(s) == m && c == listed(s);
    let n = s.len() as int;
    lemma_entries_map(s);
    let (fr, fw, fd) = (
        |e: (String, Staged)| rename_at(e),
        |e: (String, Staged)| write_at(e),
        |e: (String, Staged)| delete_at(e),
    );
    let (r, w, d) = (gathered(s, n, fr), gathered(s, n, fw), gathered(s, n, fd));
    let (pr, pw, pd) = (lemma_gathered(s, n, fr), lemma_gathered(s, n, fw), lemma_gathered(s, n, fd));
    assert(c == r + w + d);
    assert forall|i: int| 0 <= i < c.len() implies told(m, #[trigger] c[i]) by {
        if i < r.len() {
            assert(c[i] == r[i]);
            assert(fr(s[pr[i]]) == Some(r[i]));
            assert(m.contains_key(s[pr[i]].0@));
        } else if i < r.len() + w.len() {
            let k = i - r.len();
            assert(c[i] == w[k]);
            assert(fw(s[pw[k]]) == Some(w[k]));
            assert(m.contains_key(s[pw[k]].0@));
        } else {
            let k = i - r.len() - w.len();
            assert(c[i] == d[k]);
            assert(fd(s[pd[k]]) == Some(d[k]));
            assert(m.contains_key(s[pd[k]].0@));
        }
    }
    assert forall|p: Seq<char>| #[trigger] tells_path(c, m, p) by {
        if m.contains_key(p) {
            let i = choose|i: int| 0 <= i < s.len() && (#[trigger] s[i]).0@ == p;
            assert(m[p] == s[i].1);
            if fr(s[i]) is Some {
                let k = choose|k: int| 0 <= k < pr.len() && #[trigger] pr[k] == i;
                assert(c[k] == r[k]);
            }
            if fw(s[i]) is Some {
                let k = choose|k: int| 0 <= k < pw.len() && #[trigger] pw[k] == i;
                assert(c[r.len() + k] == w[k]);
            }
            if fd(s[i]) is Some {
                let k = choose|k: int| 0 <= k < pd.len() && #[trigger] pd[k] == i;
                assert(c[r.len() + w.len() + k] == d[k]);
            }
        }
    }
    assert forall|i: int, j: int| 0 <= i < j < c.len() implies !(moved_to(#[trigger] c[i]) is Some
        && moved_to(c[i]) == moved_to(#[trigger] c[j])) && !(written_to(c[i]) is Some
        && written_to(c[i]) == written_to(c[j])) by {
        if j < r.len() {
            assert(c[i] == r[i] && c[j] == r[j]);
            assert(fr(s[pr[i]]) == Some(r[i]) && fr(s[pr[j]]) == Some(r[j]));
            assert(pr[i] < pr[j]);
            law_str_lt_total(s[pr[i]].0@, s[pr[i]].0@);
        } else if i < r.len() {
            assert(c[i] == r[i]);
            assert(fr(s[pr[i]]) == Some(r[i]));
            if j < r.len() + w.len() {
                assert(c[j] == w[j - r.len()]);
                assert(fw(s[pw[j - r.len()]]) == Some(w[j - r.len()]));
            } else {
                let k = j - r.len() - w.len();
                assert(c[j] == d[k]);
                assert(fd(s[pd[k]]) == Some(d[k]));
            }
        } else if j < r.len() + w.len() {
            let (x, y) = (i - r.len(), j - r.len());
            assert(c[i] == w[x] && c[j] == w[y]);
            assert(fw(s[pw[x]]) == Some(w[x]) && fw(s[pw[y]]) == Some(w[y]));
            assert(pw[x] < pw[y]);
            law_str_lt_total(s[pw[x]].0@, s[pw[x]].0@);
        } else {
            let k = j - r.len() - w.len();
            assert(c[j] == d[k]);
            assert(fd(s[pd[k]]) == Some(d[k]));
        }
    }
}

// ── Items to restore ─────────────────────────────────────────────────

/// The number by which `readdir(3)` knows a kind.
pub open spec fn kind_number(d: DType) -> u8 {
    match d {
        DType::File => 8,
        DType::Dir => 4,
        DType::Link => 10,
    }
}

/// True for an item that takes its path away.
pub open spec fn takes_away(x: ItemView) -> bool {
    x.ino == 0
}

/// What an item says stands at its path: nothing, what base has at another
/// path, or a staged inode.
pub open spec fn says(base: Paths, x: ItemView) -> Option<Content> {
    if x.ino == 0 {
        None
    } else if x.ino == 18446744073709551615 {
        base_at(base, x.base)
    } else {
        Some(Content::Staged(x.ino))
    }
}

/// Some item is at the path.
pub open spec fn is_at(items: Seq<ItemView>, p: Seq<char>) -> bool {
    exists|i: int| 0 <= i < items.len() && (#[trigger] items[i]).path == p
}

/// Some item is at the path and does not take it away.
pub open spec fn gives(items: Seq<ItemView>, p: Seq<char>) -> bool {
    exists|i: int|
        0 <= i < items.len() && (#[trigger] items[i]).path == p && !takes_away(items[i])
}

/// No path is given two things.
pub open spec fn gives_once(items: Seq<ItemView>) -> bool {
    forall|i: int, j: int|
        0 <= i < j < items.len() && !takes_away(#[trigger] items[i]) && !takes_away(
            #[trigger] items[j],
        ) ==> items[i].path != items[j].path
}

/// Laid over base, the items show what the state says stands at every path: no
/// path is given two things, what is given is what stands there, and where
/// nothing is given a path is empty or as in base.
pub open spec fn lays_out(items: Seq<ItemView>, base: Paths, m: State) -> bool {
    &&& gives_once(items)
    &&& forall|i: int|
        0 <= i < items.len() && !takes_away(#[trigger] items[i]) ==> says(base, items[i]) == stands(
            base,
            m,
            items[i].path,
        )
    &&& forall|p: Seq<char>|
        !(#[trigger] gives(items, p)) ==> stands(base, m, p) == if is_at(items, p) {
            None
        } else {
            base_at(base, p)
        }
}

/// The item knows the kind of what it gives, and whether base has something there.
pub open spec fn knows(m: State, x: ItemView) -> bool {
    if takes_away(x) {
        x.in_base && x.base.len() == 0
    } else {
        match at_path(m, x.path) {
            Some(Staged::Stage { dtype, is_new, .. }) => x.in_base == !is_new && x.d_type
                == kind_number(dtype) && x.base.len() == 0,
            Some(Staged::Rename { dtype, ino: Some(_), .. }) => x.in_base && x.d_type
                == kind_number(dtype) && x.base.len() == 0,
            Some(Staged::Rename { dtype, ino: None, overwrites, .. }) => x.in_base == overwrites
                && x.d_type == kind_number(dtype),
            _ => false,
        }
    }
}

/// Staged inodes have numbers of their own, none of which stands for a deleted
/// or a redirected entry.
pub open spec fn plain_inodes(m: State) -> bool {
    forall|p: Seq<char>|
        match #[trigger] at_path(m, p) {
            Some(Staged::Stage { ino, .. }) => 0 < ino < 18446744073709551615,
            Some(Staged::Rename { ino: Some(ino), .. }) => 0 < ino < 18446744073709551615,
            _ => true,
        }
}

/// What has come back to where it was is not moved elsewhere.
pub open spec fn returned_stay(m: State) -> bool {
    forall|p: Seq<char>, q: Seq<char>|
        #[trigger] origin_at(m, p) == Some(p) && p != q && match at_path(m, p) {
            Some(Staged::Rename { ino, .. }) => ino is None,
            _ => false,
        } ==> #[trigger] origin_at(m, q) != Some(p)
}

proof fn lemma_put_once(s: Seq<ItemView>, x: ItemView)
    requires
        gives_once(s),
        forall|i: int|
            0 <= i < s.len() && !takes_away(x) && !takes_away(#[trigger] s[i]) ==> s[i].path
                != x.path,
    ensures
        gives_once(put_by_path(s, x)),
        forall|y: ItemView| #[trigger] put_by_path(s, x).contains(y) == (s.contains(y) || y == x),
    decreases s.len(),
{
    let r = put_by_path(s, x);
    if s.len() > 0 && crate::text::str_lt(x.path, s.last().path) {
        let t = s.drop_last();
        lemma_put_once(t, x);
        let u = put_by_path(t, x);
        assert(r == u.push(s.last()));
        assert forall|i: int, j: int|
            0 <= i < j < r.len() && !takes_away(#[trigger] r[i]) && !takes_away(
                #[trigger] r[j],
            ) implies r[i].path != r[j].path by {
            assert(u[i] == r[i]);
            if j < u.len() {
                assert(u[j] == r[j]);
            } else {
                assert(u.contains(u[i]));
                if t.contains(u[i]) {
                    let k = choose|k: int| 0 <= k < t.len() && t[k] == u[i];
                    assert(s[k] == u[i]);
                }
                assert(s[s.len() - 1] == r[j]);
            }
        }
        assert forall|y: ItemView| #[trigger] r.contains(y) == (s.contains(y) || y == x) by {
            if r.contains(y) {
                let k = choose|k: int| 0 <= k < r.len() && r[k] == y;
                if k < u.len() {
                    assert(u[k] == y);
                    assert(u.contains(y));
                    if t.contains(y) {
                        let l = choose|l: int| 0 <= l < t.len() && t[l] == y;
                        assert(s[l] == y);
                    }
                } else {
                    assert(s[s.len() - 1] == y);
                }
            }
            if s.contains(y) || y == x {
                if y == x || t.contains(y) {
                    assert(u.contains(y));
                    let k = choose|k: int| 0 <= k < u.len() && u[k] == y;
                    assert(r[k] == y);
                } else {
                    let l = choose|l: int| 0 <= l < s.len() && s[l] == y;
                    if l < t.len() {
                        assert(t[l] == y);
                    }
                    assert(r[u.len() as int] == y);
                }
            }
        }
    } else {
        assert(r == s.push(x));
        assert forall|i: int, j: int|
            0 <= i < j < r.len() && !takes_away(#[trigger] r[i]) && !takes_away(
                #[trigger] r[j],
            ) implies r[i].path != r[j].path by {
            assert(r[i] == s[i]);
            if j < s.len() {
                assert(r[j] == s[j]);
            }
        }
        assert forall|y: ItemView| #[trigger] r.contains(y) == (s.contains(y) || y == x) by {
            if s.contains(y) {
                let l = choose|l: int| 0 <= l < s.len() && s[l] == y;
                assert(r[l] == y);
            }
            assert(r[s.len() as int] == x);
        }
    }
}

proof fn lemma_sorted_once(s: Seq<ItemView>)
    requires
        gives_once(s),
    ensures
        gives_once(by_path(s)),
        forall|y: ItemView| #[trigger] by_path(s).contains(y) == s.contains(y),
    decreases s.len(),
{
    if s.len() == 0 {
        assert(by_path(s) =~= s);
    } else {
        let t = s.drop_last();
        let x = s.last();
        assert forall|i: int, j: int|
            0 <= i < j < t.len() && !takes_away(#[trigger] t[i]) && !takes_away(
                #[trigger] t[j],
            ) implies t[i].path != t[j].path by {
            assert(t[i] == s[i] && t[j] == s[j]);
        }
        lemma_sorted_once(t);
        let u = by_path(t);
        assert forall|i: int|
            0 <= i < u.len() && !takes_away(x) && !takes_away(#[trigger] u[i]) implies u[i].path
            != x.path by {
            assert(u.contains(u[i]));
            let k = choose|k: int| 0 <= k < t.len() && t[k] == u[i];
            assert(s[k] == u[i] && s[s.len() - 1] == x);
        }
        lemma_put_once(u, x);
        assert forall|y: ItemView| #[trigger] by_path(s).contains(y) == s.contains(y) by {
            assert(put_by_path(u, x).contains(y) == (u.contains(y) || y == x));
            assert(u.contains(y) == t.contains(y));
            if t.contains(y) {
                let k = choose|k: int| 0 <= k < t.len() && t[k] == y;
                assert(s[k] == y);
            }
            if s.contains(y) {
                let k = choose|k: int| 0 <= k < s.len() && s[k] == y;
                if k < t.len() {
                    assert(t[k] == y);
                }
            }
            assert(s[s.len() - 1] == x);
        }
    }
}

/// What the items of one change are, and whose they are.
spec fn item_of(c: Seq<Change>, x: Change, y: ItemView) -> bool {
    items_for(c, x).contains(y)
}

/// The path that a change gives something to.
spec fn given_to(c: Seq<Change>, x: Change) -> Option<Seq<char>> {
    match written_to(x) {
        Some(p) => Some(p),
        None => match moved_to(x) {
            Some(p) => if is_staged(c, p) {
                None
            } else {
                Some(p)
            },
            None => None,
        },
    }
}

proof fn lemma_items_for(c: Seq<Change>, m: State, x: Change)
    requires
        tells(c, m),
        plain_inodes(m),
        told(m, x),
    ensures
        gives_once(items_for(c, x)),
        forall|y: ItemView| #[trigger]
            item_of(c, x, y) ==> knows(m, y) && if takes_away(y) {
                moved_from(x) == Some(y.path) || (x is Deleted && x.is_about(y.path))
            } else {
                given_to(c, x) == Some(y.path) && (forall|base: Paths| #[trigger]
                    says(base, y) == stands(base, m, y.path))
            },
        given_to(c, x) matches Some(p) ==> exists|y: ItemView|
            #[trigger] item_of(c, x, y) && !takes_away(y) && y.path == p,
        moved_from(x) matches Some(p) ==> exists|y: ItemView|
            #[trigger] item_of(c, x, y) && y.path == p,
        x is Deleted ==> exists|y: ItemView| #[trigger] item_of(c, x, y) && x.is_about(y.path),
{
    let v = items_for(c, x);
    if v.len() > 0 {
        assert(item_of(c, x, v[0]));
    }
    if v.len() > 1 {
        assert(item_of(c, x, v[1]));
    }
    if let Some(p) = moved_to(x) {
        lemma_staged_written(c, p);
        assert(tells_path(c, m, p));
        if !is_staged(c, p) {
            match at_path(m, p) {
                Some(Staged::Rename { ino: Some(_), .. }) => {
                    assert(some(c, |x: Change| written_to(x) == Some(p)));
                },
                _ => {},
            }
        }
    }
}

proof fn lemma_staged_written(c: Seq<Change>, p: Seq<char>)
    ensures
        is_staged(c, p) == some(c, |x: Change| written_to(x) == Some(p)),
{
    let f = |x: Change| written_to(x) == Some(p);
    if is_staged(c, p) {
        let i = choose|i: int| 0 <= i < c.len() && #[trigger] writes_to(c[i], p);
        assert(f(c[i]));
    }
    if some(c, f) {
        let i = choose|i: int| 0 <= i < c.len() && f(#[trigger] c[i]);
        assert(writes_to(c[i], p));
    }
}

/// The items of the first `n` changes.
proof fn lemma_items_in_order(c: Seq<Change>, m: State, n: int)
    requires
        tells(c, m),
        plain_inodes(m),
        0 <= n <= c.len(),
    ensures
        gives_once(items_in_order(c, n)),
        forall|y: ItemView| #[trigger]
            items_in_order(c, n).contains(y) == (exists|i: int|
                0 <= i < n && #[trigger] item_of(c, c[i], y)),
    decreases n,
{
    if n > 0 {
        lemma_items_in_order(c, m, n - 1);
        lemma_items_for(c, m, c[n - 1]);
        let a = items_in_order(c, n - 1);
        let b = items_for(c, c[n - 1]);
        let u = a + b;
        assert forall|y: ItemView| #[trigger] u.contains(y) == (exists|i: int|
            0 <= i < n && #[trigger] item_of(c, c[i], y)) by {
            if u.contains(y) {
                let k = choose|k: int| 0 <= k < u.len() && u[k] == y;
                if k < a.len() {
                    assert(a[k] == y);
                    assert(a.contains(y));
                } else {
                    assert(b[k - a.len()] == y);
                    assert(item_of(c, c[n - 1], y));
                }
            }
            if exists|i: int| 0 <= i < n && #[trigger] item_of(c, c[i], y) {
                let i = choose|i: int| 0 <= i < n && #[trigger] item_of(c, c[i], y);
                if i < n - 1 {
                    assert(a.contains(y));
                    let k = choose|k: int| 0 <= k < a.len() && a[k] == y;
                    assert(u[k] == y);
                } else {
                    let k = choose|k: int| 0 <= k < b.len() && b[k] == y;
                    assert(u[a.len() + k] == y);
                }
            }
        }
        assert forall|i: int, j: int|
            0 <= i < j < u.len() && !takes_away(#[trigger] u[i]) && !takes_away(
                #[trigger] u[j],
            ) implies u[i].path != u[j].path by {
            if j < a.len() {
                assert(a[i] == u[i] && a[j] == u[j]);
            } else if i >= a.len() {
                assert(b[i - a.len()] == u[i] && b[j - a.len()] == u[j]);
            } else {
                assert(a[i] == u[i] && b[j - a.len()] == u[j]);
                assert(a.contains(u[i]) && b.contains(u[j]));
                let k = choose|k: int| 0 <= k < n - 1 && #[trigger] item_of(c, c[k], u[i]);
                lemma_items_for(c, m, c[k]);
                assert(item_of(c, c[n - 1], u[j]));
                lemma_given_apart(c, m, k, n - 1);
            }
        }
    }
}

proof fn lemma_given_apart(c: Seq<Change>, m: State, i: int, j: int)
    requires
        tells(c, m),
        0 <= i < j < c.len(),
    ensures
        given_to(c, c[i]) is Some ==> given_to(c, c[i]) != given_to(c, c[j]),
{
    if written_to(c[i]) is Some {
        assert(writes_to(c[i], written_to(c[i])->0));
    }
    if written_to(c[j]) is Some {
        assert(writes_to(c[j], written_to(c[j])->0));
    }
}

/// The items to restore, laid over any base, show what the state says stands
/// at every path: in particular each path that something was moved to is given
/// exactly one thing.
pub proof fn law_items_lay_out_state(c: Seq<Change>, m: State, base: Paths)
    requires
        are_changes_of(c, m),
        plain_inodes(m),
        returned_stay(m),
    ensures
        lays_out(restore_items(c), base, m),
        forall|i: int|
            0 <= i < restore_items(c).len() ==> knows(m, #[trigger] restore_items(c)[i]),
{
    law_changes_tell_state(c, m);
    let n = c.len() as int;
    let u = items_in_order(c, n);
    let r = restore_items(c);
    lemma_items_in_order(c, m, n);
    lemma_sorted_once(u);
    assert forall|i: int| 0 <= i < r.len() implies knows(m, #[trigger] r[i]) && (!takes_away(r[i])
        ==> says(base, r[i]) == stands(base, m, r[i].path)) by {
        assert(r.contains(r[i]));
        assert(u.contains(r[i]));
        let k = choose|k: int| 0 <= k < n && #[trigger] item_of(c, c[k], r[i]);
        lemma_items_for(c, m, c[k]);
        assert(item_of(c, c[k], r[i]));
    }
    assert forall|p: Seq<char>| !(#[trigger] gives(r, p)) implies stands(base, m, p) == if is_at(
        r,
        p,
    ) {
        None
    } else {
        base_at(base, p)
    } by {
        lemma_nothing_given(c, m, r, p);
        lemma_taken_away(c, m, r, p);
        lemma_not_given(c, m, p, base);
    }
}

/// What stands at a path that no change gives anything to.
proof fn lemma_not_given(c: Seq<Change>, m: State, p: Seq<char>, base: Paths)
    requires
        tells(c, m),
        returned_stay(m),
        !some(c, |x: Change| written_to(x) == Some(p)),
        !some(c, |x: Change| moved_to(x) == Some(p)),
    ensures
        stands(base, m, p) == if at_path(m, p) == Some(Staged::Delete) || exists|q: Seq<char>|
            q != p && #[trigger] origin_at(m, q) == Some(p) {
            None
        } else {
            base_at(base, p)
        },
{
    assert(tells_path(c, m, p));
    match at_path(m, p) {
        Some(Staged::Rename { origin, ino, .. }) => {
            assert(origin@ == p && ino is None);
            assert(origin_at(m, p) == Some(p));
            assert(forall|q: Seq<char>| q != p ==> #[trigger] origin_at(m, q) != Some(p));
        },
        Some(Staged::Stage { .. }) => {},
        Some(Staged::Delete) => {},
        None => {
            if is_origin(m, p) {
                let q = choose|q: Seq<char>| #[trigger] origin_at(m, q) == Some(p);
                assert(q != p);
            } else {
                assert(forall|q: Seq<char>| #[trigger] origin_at(m, q) != Some(p));
            }
        },
    }
}

/// Where nothing is given to a path, no change gives anything to it.
proof fn lemma_nothing_given(c: Seq<Change>, m: State, r: Seq<ItemView>, p: Seq<char>)
    requires
        tells(c, m),
        plain_inodes(m),
        forall|y: ItemView| #[trigger]
            r.contains(y) == items_in_order(c, c.len() as int).contains(y),
        !gives(r, p),
    ensures
        forall|i: int| 0 <= i < c.len() ==> given_to(c, #[trigger] c[i]) != Some(p),
        !some(c, |x: Change| written_to(x) == Some(p)),
        !some(c, |x: Change| moved_to(x) == Some(p)),
{
    let n = c.len() as int;
    lemma_items_in_order(c, m, n);
    assert forall|i: int| 0 <= i < c.len() implies given_to(c, #[trigger] c[i]) != Some(p) by {
        lemma_items_for(c, m, c[i]);
        if given_to(c, c[i]) == Some(p) {
            let y = choose|y: ItemView| #[trigger] item_of(c, c[i], y) && !takes_away(y) && y.path
                == p;
            assert(items_in_order(c, n).contains(y));
            assert(r.contains(y));
            let k = choose|k: int| 0 <= k < r.len() && r[k] == y;
            assert(r[k].path == p);
        }
    }
    let f = |x: Change| written_to(x) == Some(p);
    if some(c, f) {
        let i = choose|i: int| 0 <= i < c.len() && f(#[trigger] c[i]);
        assert(given_to(c, c[i]) == Some(p));
    }
    lemma_staged_written(c, p);
    let g = |x: Change| moved_to(x) == Some(p);
    if some(c, g) {
        let i = choose|i: int| 0 <= i < c.len() && g(#[trigger] c[i]);
        assert(given_to(c, c[i]) == Some(p));
    }
}

/// Where nothing is given to a path, an item is at it exactly where it is
/// deleted or something was moved from it.
proof fn lemma_taken_away(c: Seq<Change>, m: State, r: Seq<ItemView>, p: Seq<char>)
    requires
        tells(c, m),
        plain_inodes(m),
        forall|y: ItemView| #[trigger]
            r.contains(y) == items_in_order(c, c.len() as int).contains(y),
        !gives(r, p),
    ensures
        is_at(r, p) == (at_path(m, p) == Some(Staged::Delete) || exists|q: Seq<char>|
            q != p && #[trigger] origin_at(m, q) == Some(p)),
{
    let n = c.len() as int;
    lemma_items_in_order(c, m, n);
    if is_at(r, p) {
        let k = choose|k: int| 0 <= k < r.len() && (#[trigger] r[k]).path == p;
        assert(r.contains(r[k]));
        let i = choose|i: int| 0 <= i < n && #[trigger] item_of(c, c[i], r[k]);
        lemma_items_for(c, m, c[i]);
        assert(item_of(c, c[i], r[k]));
        assert(takes_away(r[k]));
        assert(told(m, c[i]));
        if moved_from(c[i]) == Some(p) {
            assert(origin_at(m, moved_to(c[i])->0) == Some(p));
        }
    }
    if at_path(m, p) == Some(Staged::Delete) {
        assert(tells_path(c, m, p));
        let f = |x: Change| x is Deleted && x.is_about(p);
        assert(some(c, f));
        let i = choose|i: int| 0 <= i < c.len() && f(#[trigger] c[i]);
        lemma_items_for(c, m, c[i]);
        let y = choose|y: ItemView| #[trigger] item_of(c, c[i], y) && c[i].is_about(y.path);
        lemma_contained(c, r, y, i);
    }
    if exists|q: Seq<char>| q != p && #[trigger] origin_at(m, q) == Some(p) {
        let q = choose|q: Seq<char>| q != p && #[trigger] origin_at(m, q) == Some(p);
        assert(tells_path(c, m, q));
        let f = |x: Change| moved_to(x) == Some(q);
        assert(some(c, f));
        let i = choose|i: int| 0 <= i < c.len() && f(#[trigger] c[i]);
        assert(told(m, c[i]));
        lemma_items_for(c, m, c[i]);
        let y = choose|y: ItemView| #[trigger] item_of(c, c[i], y) && y.path == p;
        lemma_contained(c, r, y, i);
    }
}

proof fn lemma_contained(c: Seq<Change>, r: Seq<ItemView>, y: ItemView, i: int)
    requires
        0 <= i < c.len(),
        item_of(c, c[i], y),
        forall|x: ItemView| #[trigger]
            items_in_order(c, c.len() as int).contains(x) == (exists|j: int|
                0 <= j < c.len() && #[trigger] item_of(c, c[j], x)),
        forall|x: ItemView| #[trigger]
            r.contains(x) == items_in_order(c, c.len() as int).contains(x),
    ensures
        is_at(r, y.path),
{
    assert(items_in_order(c, c.len() as int).contains(y));
    assert(r.contains(y));
    let k = choose|k: int| 0 <= k < r.len() && r[k] == y;
    assert(r[k].path == y.path);
}

/// Going back to a state gives back what the records up to it left: the items
/// to restore, laid over base, say of every path what the records, one after
/// the other, leave there.
pub proof fn law_restore_gives_effect(base: Paths, s: Seq<Record>, c: Seq<Change>)
    requires
        records_fit(base, s),
        are_changes_of(c, replayed(s)),
        plain_inodes(replayed(s)),
        returned_stay(replayed(s)),
    ensures
        lays_out(restore_items(c), base, replayed(s)),
        forall|p: Seq<char>| #[trigger] stands(base, replayed(s), p) == records_done(base, s)(p),
{
    law_items_lay_out_state(c, replayed(s), base);
    law_resolve_keeps_effect(base, s);
}

} // verus!
