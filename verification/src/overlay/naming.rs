//! The names in trees that actions build, and what a walk of such a tree visits.
use super::commit::{actions_of, law_segments_are_actions};
use super::listing::{lists, shows};
use super::path::{
    law_names_of_parent, names, parent_and_name, past_slash, rendered, slash_pieces,
};
use super::tree::{
    after_actions, after_move, after_segments, child, edited, edited_at, edited_below,
    is_directory, moved_node, node_at, node_below, passthrough, source_gone, source_node,
    staged_at, tombstoned, without, Dentry, DentryView, EditView, NodeView, TargetView, TreeView,
};
use super::types::{Action, Segment};
use super::view::inside;
use crate::sift::{lemma_sift_positions, sift};
use vstd::prelude::*;

verus! {

/// A name: not empty, and without a slash.
pub open spec fn plain_name(k: Seq<char>) -> bool {
    k.len() > 0 && !k.contains('/')
}

/// Each of them is a name.
pub open spec fn all_plain(ps: Seq<Seq<char>>) -> bool {
    forall|i: int| 0 <= i < ps.len() ==> plain_name(#[trigger] ps[i])
}

/// Everything in the tree goes by names.
pub open spec fn well_named(t: TreeView) -> bool {
    forall|ps: Seq<Seq<char>>| (#[trigger] node_at(t, ps)) is Some ==> all_plain(ps)
}

/// The path is made up of names, each after a slash.
pub open spec fn is_full(p: Seq<char>) -> bool {
    p == rendered(names(p))
}

// ── Names of paths ───────────────────────────────────────────────────

proof fn lemma_pieces_plain(s: Seq<char>, n: int)
    requires
        0 <= n <= s.len(),
    ensures
        slash_pieces(s, n).len() > 0,
        forall|i: int|
            0 <= i < slash_pieces(s, n).len() ==> !(#[trigger] slash_pieces(s, n)[i]).contains('/'),
    decreases n,
{
    if n > 0 {
        lemma_pieces_plain(s, n - 1);
        let p = slash_pieces(s, n - 1);
        let q = slash_pieces(s, n);
        assert(!p[p.len() - 1].contains('/'));
        assert forall|i: int| 0 <= i < q.len() implies !(#[trigger] q[i]).contains('/') by {
            if s[n - 1] == '/' {
                if i < p.len() {
                    assert(q[i] == p[i]);
                }
            } else if i < p.len() - 1 {
                assert(q[i] == p[i]);
            } else {
                let l = p.last();
                assert(q[i] == l.push(s[n - 1]));
                if q[i].contains('/') {
                    let j = choose|j: int| 0 <= j < q[i].len() && q[i][j] == '/';
                    assert(l[j] == '/');
                }
            }
        }
    }
}

/// The names of a path are names.
pub proof fn law_names_are_plain(s: Seq<char>)
    ensures
        all_plain(names(s)),
{
    let n = s.len() as int;
    lemma_pieces_plain(s, n);
    let p = slash_pieces(s, n);
    let keep = |i: int| p[i].len() > 0;
    let pos = lemma_sift_positions(p, p.len() as int, keep);
    assert(names(s) == sift(p, p.len() as int, keep));
    assert forall|i: int| 0 <= i < names(s).len() implies plain_name(#[trigger] names(s)[i]) by {
        assert(names(s)[i] == p[pos[i]]);
        assert(keep(pos[i]));
    }
}

proof fn lemma_parent_plain(s: Seq<char>)
    ensures
        parent_and_name(s) matches Some((ps, name)) ==> all_plain(ps) && plain_name(name),
{
    if let Some((ps, name)) = parent_and_name(s) {
        law_names_of_parent(s);
        law_names_are_plain(s);
        assert(names(s)[ps.len() as int] == name);
        assert forall|i: int| 0 <= i < ps.len() implies plain_name(#[trigger] ps[i]) by {
            assert(names(s)[i] == ps[i]);
        }
    }
}

proof fn lemma_last_slash(a: Seq<char>, name: Seq<char>, n: int)
    requires
        !name.contains('/'),
        a.len() < n <= a.len() + 1 + name.len(),
    ensures
        past_slash(a.push('/') + name, n) == a.len() + 1,
    decreases n,
{
    let s = a.push('/') + name;
    if n > a.len() + 1 {
        assert(s[n - 1] == name[n - 2 - a.len()]);
        assert(s[n - 1] != '/');
        lemma_last_slash(a, name, n - 1);
    } else {
        assert(s[n - 1] == '/');
    }
}

/// A path made up of names has those names.
pub proof fn law_names_of_rendered(ps: Seq<Seq<char>>)
    requires
        all_plain(ps),
    ensures
        names(rendered(ps)) == ps,
        is_full(rendered(ps)),
    decreases ps.len(),
{
    if ps.len() == 0 {
        let e = Seq::<char>::empty();
        let p = slash_pieces(e, 0);
        assert(p.len() == 1 && p[0].len() == 0);
        assert(rendered(ps) == e);
        reveal_with_fuel(sift, 2);
        assert(names(e) =~= ps);
    } else {
        let (a, name) = (rendered(ps.drop_last()), ps.last());
        let s = rendered(ps);
        assert(plain_name(ps[ps.len() - 1]));
        assert forall|i: int| 0 <= i < ps.len() - 1 implies plain_name(
            #[trigger] ps.drop_last()[i],
        ) by {
            assert(ps.drop_last()[i] == ps[i]);
        }
        law_names_of_rendered(ps.drop_last());
        lemma_last_slash(a, name, s.len() as int);
        let k = past_slash(s, s.len() as int);
        assert(s.take(k - 1) =~= a);
        assert(s.skip(k) =~= name);
        assert(parent_and_name(s) == Some((names(a), name)));
        law_names_of_parent(s);
        assert(ps =~= ps.drop_last().push(name));
    }
}

// ── Trees that actions build ─────────────────────────────────────────

proof fn lemma_empty_named()
    ensures
        well_named(Map::empty()),
{
}

proof fn lemma_child_named(t: TreeView, k: Seq<char>)
    requires
        well_named(t),
        t.contains_key(k),
    ensures
        well_named(inside(t[k])),
{
    if let NodeView::Dir(_, sub) = t[k] {
        assert forall|ps: Seq<Seq<char>>| (#[trigger] node_at(sub, ps)) is Some implies all_plain(
            ps,
        ) by {
            let q = seq![k] + ps;
            assert(q.skip(1) =~= ps);
            assert(node_at(t, q) == node_at(sub, ps));
            assert forall|i: int| 0 <= i < ps.len() implies plain_name(#[trigger] ps[i]) by {
                assert(q[i + 1] == ps[i]);
            }
        }
    }
}

proof fn lemma_put_named(t: TreeView, k: Seq<char>, n: NodeView)
    requires
        well_named(t),
        plain_name(k),
        well_named(inside(n)),
    ensures
        well_named(t.insert(k, n)),
{
    let r = t.insert(k, n);
    assert forall|ps: Seq<Seq<char>>| (#[trigger] node_at(r, ps)) is Some implies all_plain(
        ps,
    ) by {
        if ps[0] == k {
            if ps.len() > 1 {
                let q = ps.skip(1);
                assert(node_at(r, ps) == node_at(inside(n), q));
                assert forall|i: int| 0 <= i < ps.len() implies plain_name(#[trigger] ps[i]) by {
                    if i > 0 {
                        assert(q[i - 1] == ps[i]);
                    }
                }
            }
        } else {
            assert(node_at(r, ps) == node_at(t, ps));
        }
    }
}

proof fn lemma_drop_named(t: TreeView, k: Seq<char>)
    requires
        well_named(t),
    ensures
        well_named(t.remove(k)),
{
    let r = t.remove(k);
    assert forall|ps: Seq<Seq<char>>| (#[trigger] node_at(r, ps)) is Some implies all_plain(
        ps,
    ) by {
        assert(node_at(r, ps) == node_at(t, ps));
    }
}

/// What an edit puts in place goes by names.
spec fn edit_named(e: EditView) -> bool {
    match e {
        EditView::Place(n) => well_named(inside(n)),
        EditView::Settle(n) => well_named(inside(n)),
        _ => true,
    }
}

proof fn lemma_edited_named(t: TreeView, name: Seq<char>, e: EditView)
    requires
        well_named(t),
        plain_name(name),
        edit_named(e),
    ensures
        well_named(edited(t, name, e)),
{
    lemma_empty_named();
    if t.contains_key(name) {
        lemma_child_named(t, name);
    }
    lemma_drop_named(t, name);
    match e {
        EditView::Stage(d, is_dir) => {
            let n = if is_dir {
                match child(t, name) {
                    Some(NodeView::Dir(_, sub)) => NodeView::Dir(d, sub),
                    _ => NodeView::Dir(d, Map::empty()),
                }
            } else {
                NodeView::File(d)
            };
            lemma_put_named(t, name, n);
        },
        EditView::Delete(is_dir) => {
            lemma_put_named(t, name, tombstoned(child(t, name), is_dir));
        },
        EditView::Tombstone(is_dir) => {
            lemma_put_named(t, name, tombstoned(child(t, name), is_dir));
        },
        EditView::Place(n) => {
            lemma_put_named(t, name, n);
        },
        EditView::Settle(n) => {
            lemma_put_named(t, name, NodeView::Dir(passthrough(), inside(n)));
        },
    }
}

proof fn lemma_edited_below_named(t: TreeView, ps: Seq<Seq<char>>, name: Seq<char>, e: EditView)
    requires
        well_named(t),
        all_plain(ps),
        plain_name(name),
        edit_named(e),
    ensures
        well_named(edited_below(t, ps, name, e)),
    decreases ps.len(),
{
    lemma_empty_named();
    if ps.len() == 0 {
        lemma_edited_named(t, name, e);
    } else {
        let rest = ps.skip(1);
        assert forall|i: int| 0 <= i < rest.len() implies plain_name(#[trigger] rest[i]) by {
            assert(rest[i] == ps[i + 1]);
        }
        match child(t, ps[0]) {
            Some(NodeView::File(_)) => {},
            Some(NodeView::Dir(d, sub)) => {
                lemma_child_named(t, ps[0]);
                lemma_edited_below_named(sub, rest, name, e);
                lemma_put_named(t, ps[0], NodeView::Dir(d, edited_below(sub, rest, name, e)));
            },
            None => {
                lemma_edited_below_named(Map::empty(), rest, name, e);
                let below = edited_below(Map::empty(), rest, name, e);
                lemma_put_named(t, ps[0], NodeView::Dir(passthrough(), below));
            },
        }
    }
}

proof fn lemma_edited_at_named(t: TreeView, path: Seq<char>, e: EditView)
    requires
        well_named(t),
        edit_named(e),
    ensures
        well_named(edited_at(t, path, e)),
{
    lemma_parent_plain(path);
    if let Some((ps, name)) = parent_and_name(path) {
        lemma_edited_below_named(t, ps, name, e);
    }
}

proof fn lemma_without_named(t: TreeView, ps: Seq<Seq<char>>, name: Seq<char>)
    requires
        well_named(t),
    ensures
        well_named(without(t, ps, name)),
        node_below(t, ps, name) matches Some(n) ==> well_named(inside(n)),
    decreases ps.len(),
{
    if ps.len() == 0 {
        lemma_drop_named(t, name);
        if t.contains_key(name) {
            lemma_child_named(t, name);
        }
    } else {
        if let Some(NodeView::Dir(d, sub)) = child(t, ps[0]) {
            lemma_child_named(t, ps[0]);
            lemma_without_named(sub, ps.skip(1), name);
            assert(node_at(t, seq![ps[0]]) is Some);
            assert(plain_name(seq![ps[0]][0]));
            lemma_put_named(t, ps[0], NodeView::Dir(d, without(sub, ps.skip(1), name)));
        }
    }
}

proof fn lemma_move_named(
    t: TreeView,
    dst: Seq<char>,
    src: Seq<char>,
    is_dir: bool,
    in_base: bool,
)
    requires
        well_named(t),
    ensures
        well_named(after_move(t, dst, src, is_dir, in_base)),
{
    if dst != src {
        lemma_empty_named();
        let node = source_node(t, src);
        if let Some((ps, name)) = parent_and_name(src) {
            lemma_without_named(t, ps, name);
        }
        let t1 = source_gone(t, src);
        lemma_edited_at_named(t1, src, EditView::Tombstone(is_dir));
        let covered = match node {
            Some(n) => n.dentry().covers_base(),
            None => true,
        };
        let t2 = if covered {
            edited_at(t1, src, EditView::Tombstone(is_dir))
        } else {
            t1
        };
        let moved = moved_node(node, src, is_dir, in_base);
        assert(well_named(inside(moved)));
        lemma_edited_at_named(t2, dst, EditView::Settle(moved));
        lemma_edited_at_named(t2, dst, EditView::Place(moved));
    }
}

/// Everything in a tree that actions have built goes by names.
pub proof fn law_trees_are_well_named(s: Seq<Action>)
    ensures
        well_named(after_actions(Map::empty(), s)),
    decreases s.len(),
{
    lemma_empty_named();
    if s.len() > 0 {
        law_trees_are_well_named(s.drop_last());
        let t = after_actions(Map::empty(), s.drop_last());
        match s.last() {
            Action::Add { path, dtype, ino } => {
                let d = DentryView { target: TargetView::Inode(ino), in_base: false };
                lemma_edited_at_named(t, path@, EditView::Stage(d, is_directory(dtype)));
            },
            Action::Modify { path, dtype, ino } => {
                let d = DentryView { target: TargetView::Inode(ino), in_base: true };
                lemma_edited_at_named(t, path@, EditView::Stage(d, is_directory(dtype)));
            },
            Action::Delete { path, dtype } => {
                lemma_edited_at_named(t, path@, EditView::Delete(is_directory(dtype)));
            },
            Action::Rename { src, dst, dtype } => {
                lemma_move_named(t, dst@, src@, is_directory(dtype), false);
            },
            Action::Replace { src, dst, dtype } => {
                lemma_move_named(t, dst@, src@, is_directory(dtype), true);
            },
        }
    }
}

// ── Walks ────────────────────────────────────────────────────────────

/// The pairs are the staged entries of the tree by their paths, each once.
pub open spec fn visits_once(r: Seq<(String, &Dentry)>, t: TreeView) -> bool {
    &&& forall|i: int|
        0 <= i < r.len() ==> is_full((#[trigger] r[i]).0@) && staged_at(t, names(r[i].0@))
            == Some(r[i].1@)
    &&& forall|i: int, j: int|
        0 <= i < j < r.len() ==> (#[trigger] r[i]).0@ != (#[trigger] r[j]).0@
    &&& forall|p: Seq<char>|
        is_full(p) && #[trigger] staged_at(t, names(p)) is Some ==> exists|i: int|
            0 <= i < r.len() && (#[trigger] r[i]).0@ == p
}

/// A walk of a tree that segments have built visits every staged path exactly
/// once, with what a lookup of the path finds, and nothing else.
pub proof fn law_walk_visits_once(s: Seq<Segment>, r: Seq<(String, &Dentry)>)
    requires
        exists|cs: Seq<Seq<Seq<char>>>| #[trigger]
            lists(cs, after_segments(Map::empty(), s)) && shows(
                r,
                cs,
                after_segments(Map::empty(), s),
            ),
    ensures
        visits_once(r, after_segments(Map::empty(), s)),
{
    let t = after_segments(Map::empty(), s);
    let cs = choose|cs: Seq<Seq<Seq<char>>>| #[trigger] lists(cs, t) && shows(r, cs, t);
    law_segments_are_actions(Map::empty(), s);
    law_trees_are_well_named(actions_of(s));
    assert forall|i: int| 0 <= i < r.len() implies is_full((#[trigger] r[i]).0@) && names(r[i].0@)
        == cs[i] && staged_at(t, names(r[i].0@)) == Some(r[i].1@) by {
        assert(node_at(t, cs[i]) is Some);
        law_names_of_rendered(cs[i]);
    }
    assert forall|i: int, j: int| 0 <= i < j < r.len() implies (#[trigger] r[i]).0@
        != (#[trigger] r[j]).0@ by {
        assert(cs[i] != cs[j]);
    }
    assert forall|p: Seq<char>|
        is_full(p) && #[trigger] staged_at(t, names(p)) is Some implies exists|i: int|
        0 <= i < r.len() && (#[trigger] r[i]).0@ == p by {
        assert(cs.contains(names(p)));
        let i = choose|i: int| 0 <= i < cs.len() && cs[i] == names(p);
        assert(r[i].0@ == p);
    }
}

} // verus!
