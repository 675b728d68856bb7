//! What the tree shows over base, and that this is what carrying the actions
//! out on base would leave there.
use super::laws::{
    children_at, goes_through, law_leaves_are_staged, law_lookups_agree, leaves_staged,
    lemma_children_after, lemma_open_after, lemma_parent_not_through, lemma_taken_out,
    lemma_through_first, lemma_through_skip, lemma_way_stays_open, lemma_way_stays_open_without,
    way_is_open, Ends,
};
use super::path::{law_names_of_parent, names, parent_and_name};
use super::tree::{
    after_action, after_actions, after_move, child, edited, edited_at, edited_below, is_directory,
    moved_node, node_below, passthrough, staged_at, tombstoned, without, DentryView, EditView,
    NodeView, TargetView, TreeView,
};
use super::types::Action;
use vstd::prelude::*;

verus! {

/// What stands at a path: something of base, known by its path there, or a
/// staged inode.
pub enum Content {
    Base(Seq<Seq<char>>),
    Staged(u32),
}

/// The paths at which base has something.
pub type Paths = Set<Seq<Seq<char>>>;

/// Where in base the unstaged children of a directory stand, if anywhere.
pub type Place = Option<Seq<Seq<char>>>;

/// What base has at a path below a place.
pub open spec fn in_base(base: Paths, place: Place, q: Seq<Seq<char>>) -> Option<Content> {
    match place {
        Some(p) => if base.contains(p + q) {
            Some(Content::Base(p + q))
        } else {
            None
        },
        None => None,
    }
}

/// Where in base the unstaged children of an entry stand.
pub open spec fn within(d: DentryView, place: Place, name: Seq<char>) -> Place {
    match d.target {
        TargetView::Inode(_) => None,
        TargetView::Nothing => None,
        TargetView::Path(Some(s)) => Some(names(s)),
        TargetView::Path(None) => match place {
            Some(p) => Some(p.push(name)),
            None => None,
        },
    }
}

/// The children of a node.
pub open spec fn inside(n: NodeView) -> TreeView {
    match n {
        NodeView::File(_) => Map::empty(),
        NodeView::Dir(_, sub) => sub,
    }
}

/// What an entry itself shows.
pub open spec fn shown_by(base: Paths, d: DentryView, place: Place, name: Seq<char>) -> Option<
    Content,
> {
    match d.target {
        TargetView::Inode(ino) => Some(Content::Staged(ino)),
        TargetView::Nothing => None,
        TargetView::Path(Some(s)) => in_base(base, Some(names(s)), Seq::empty()),
        TargetView::Path(None) => in_base(base, place, seq![name]),
    }
}

/// What the tree shows at a path, over the part of base at `place`.
pub open spec fn seen(base: Paths, t: TreeView, place: Place, q: Seq<Seq<char>>) -> Option<Content>
    decreases q.len(),
{
    if q.len() == 0 {
        None
    } else {
        match child(t, q[0]) {
            None => in_base(base, place, q),
            Some(n) => if q.len() == 1 {
                shown_by(base, n.dentry(), place, q[0])
            } else {
                seen(base, inside(n), within(n.dentry(), place, q[0]), q.skip(1))
            },
        }
    }
}

/// The place of the directory at `ps`.
pub open spec fn place_at(t: TreeView, place: Place, ps: Seq<Seq<char>>) -> Place
    decreases ps.len(),
{
    if ps.len() == 0 {
        place
    } else {
        match child(t, ps[0]) {
            Some(n) => place_at(inside(n), within(n.dentry(), place, ps[0]), ps.skip(1)),
            None => match place {
                Some(p) => Some(p + ps),
                None => None,
            },
        }
    }
}

// ── Looking through a tree ───────────────────────────────────────────

/// Base itself is seen through an empty tree.
proof fn lemma_seen_empty(base: Paths, place: Place, q: Seq<Seq<char>>)
    requires
        q.len() > 0,
    ensures
        seen(base, Map::empty(), place, q) == in_base(base, place, q),
{
}

proof fn lemma_in_base_deeper(base: Paths, p: Seq<Seq<char>>, q: Seq<Seq<char>>)
    requires
        q.len() > 0,
    ensures
        in_base(base, Some(p), q) == in_base(base, Some(p.push(q[0])), q.skip(1)),
{
    assert(p + q =~= p.push(q[0]) + q.skip(1));
}

/// What is seen below a directory is seen from there.
proof fn lemma_seen_through(
    base: Paths,
    t: TreeView,
    place: Place,
    ps: Seq<Seq<char>>,
    q: Seq<Seq<char>>,
)
    requires
        way_is_open(t, ps),
        q.len() > 0,
    ensures
        seen(base, t, place, ps + q) == seen(base, children_at(t, ps), place_at(t, place, ps), q),
    decreases ps.len(),
{
    if ps.len() == 0 {
        assert(ps + q =~= q);
    } else {
        let r = ps + q;
        assert(r[0] == ps[0]);
        assert(r.skip(1) =~= ps.skip(1) + q);
        match child(t, ps[0]) {
            Some(NodeView::Dir(d, sub)) => {
                lemma_seen_through(base, sub, within(d, place, ps[0]), ps.skip(1), q);
            },
            _ => {
                if let Some(p) = place {
                    assert(p + r =~= (p + ps) + q);
                }
                lemma_seen_empty(base, place_at(t, place, ps), q);
            },
        }
    }
}

/// With nothing of base below, less is seen.
proof fn lemma_less_seen(base: Paths, t: TreeView, place: Place, q: Seq<Seq<char>>)
    ensures
        seen(base, t, None, q) is Some ==> seen(base, t, place, q) is Some,
    decreases q.len(),
{
    if q.len() > 1 {
        if let Some(n) = child(t, q[0]) {
            let d = n.dentry();
            if d.passes() {
                lemma_less_seen(base, inside(n), within(d, place, q[0]), q.skip(1));
            }
        }
    }
}

/// An edit changes nothing that is seen but at its path and below it.
proof fn lemma_edit_unseen(
    base: Paths,
    t: TreeView,
    place: Place,
    ps: Seq<Seq<char>>,
    name: Seq<char>,
    e: EditView,
    q: Seq<Seq<char>>,
)
    requires
        !goes_through(q, ps.push(name)),
    ensures
        seen(base, edited_below(t, ps, name, e), place, q) == seen(base, t, place, q),
    decreases ps.len(),
{
    if q.len() > 0 {
        if ps.len() == 0 {
            assert(ps.push(name) =~= seq![name]);
            lemma_through_first(q, name);
        } else if q[0] == ps[0] {
            lemma_through_skip(q, ps, name);
            match child(t, ps[0]) {
                Some(NodeView::Dir(d, sub)) => {
                    let pl = within(d, place, q[0]);
                    lemma_edit_unseen(base, sub, pl, ps.skip(1), name, e, q.skip(1));
                },
                Some(NodeView::File(_)) => {},
                None => {
                    let pl = within(passthrough(), place, q[0]);
                    lemma_edit_unseen(base, Map::empty(), pl, ps.skip(1), name, e, q.skip(1));
                    if let Some(p) = place {
                        lemma_in_base_deeper(base, p, q);
                    }
                    if q.len() == 1 {
                        assert(q =~= seq![q[0]]);
                    } else {
                        lemma_seen_empty(base, pl, q.skip(1));
                    }
                },
            }
        }
    }
}

/// Taking a node out changes nothing that is seen but at its path and below it.
proof fn lemma_removal_unseen(
    base: Paths,
    t: TreeView,
    place: Place,
    ps: Seq<Seq<char>>,
    name: Seq<char>,
    q: Seq<Seq<char>>,
)
    requires
        !goes_through(q, ps.push(name)),
    ensures
        seen(base, without(t, ps, name), place, q) == seen(base, t, place, q),
    decreases ps.len(),
{
    if q.len() > 0 {
        if ps.len() == 0 {
            assert(ps.push(name) =~= seq![name]);
            lemma_through_first(q, name);
        } else if q[0] == ps[0] {
            lemma_through_skip(q, ps, name);
            match child(t, ps[0]) {
                Some(NodeView::Dir(d, sub)) => {
                    let pl = within(d, place, q[0]);
                    lemma_removal_unseen(base, sub, pl, ps.skip(1), name, q.skip(1));
                },
                _ => {},
            }
        }
    }
}

/// An edit leaves the place of every directory that does not lie through its path.
proof fn lemma_edit_keeps_place(
    t: TreeView,
    place: Place,
    ps: Seq<Seq<char>>,
    name: Seq<char>,
    e: EditView,
    qs: Seq<Seq<char>>,
)
    requires
        !goes_through(qs, ps.push(name)),
    ensures
        place_at(edited_below(t, ps, name, e), place, qs) == place_at(t, place, qs),
    decreases ps.len(),
{
    if qs.len() > 0 {
        if ps.len() == 0 {
            assert(ps.push(name) =~= seq![name]);
            lemma_through_first(qs, name);
        } else if qs[0] == ps[0] {
            lemma_through_skip(qs, ps, name);
            match child(t, ps[0]) {
                Some(NodeView::Dir(d, sub)) => {
                    let pl = within(d, place, qs[0]);
                    lemma_edit_keeps_place(sub, pl, ps.skip(1), name, e, qs.skip(1));
                },
                Some(NodeView::File(_)) => {},
                None => {
                    let pl = within(passthrough(), place, qs[0]);
                    lemma_edit_keeps_place(Map::empty(), pl, ps.skip(1), name, e, qs.skip(1));
                    if let Some(p) = place {
                        assert(p + qs =~= p.push(qs[0]) + qs.skip(1));
                        if qs.len() == 1 {
                            assert(p.push(qs[0]) + qs.skip(1) =~= p.push(qs[0]));
                        }
                    }
                },
            }
        }
    }
}

proof fn lemma_removal_keeps_place(
    t: TreeView,
    place: Place,
    ps: Seq<Seq<char>>,
    name: Seq<char>,
    qs: Seq<Seq<char>>,
)
    requires
        !goes_through(qs, ps.push(name)),
    ensures
        place_at(without(t, ps, name), place, qs) == place_at(t, place, qs),
    decreases ps.len(),
{
    if qs.len() > 0 {
        if ps.len() == 0 {
            assert(ps.push(name) =~= seq![name]);
            lemma_through_first(qs, name);
        } else if qs[0] == ps[0] {
            lemma_through_skip(qs, ps, name);
            match child(t, ps[0]) {
                Some(NodeView::Dir(d, sub)) => {
                    let pl = within(d, place, qs[0]);
                    lemma_removal_keeps_place(sub, pl, ps.skip(1), name, qs.skip(1));
                },
                _ => {},
            }
        }
    }
}

/// A directory is not inside what it holds.
proof fn lemma_dir_not_through(ps: Seq<Seq<char>>, name: Seq<char>)
    ensures
        !goes_through(ps, ps.push(name)),
{
}

/// What is seen at the path of an edit and below it.
proof fn lemma_edit_seen(
    base: Paths,
    t: TreeView,
    place: Place,
    ps: Seq<Seq<char>>,
    name: Seq<char>,
    e: EditView,
    rest: Seq<Seq<char>>,
)
    requires
        way_is_open(t, ps),
    ensures
        seen(base, edited_below(t, ps, name, e), place, ps.push(name) + rest) == seen(
            base,
            edited(children_at(t, ps), name, e),
            place_at(t, place, ps),
            seq![name] + rest,
        ),
{
    let after = edited_below(t, ps, name, e);
    assert(ps.push(name) + rest =~= ps + (seq![name] + rest));
    lemma_open_after(t, ps, name, e);
    lemma_children_after(t, ps, name, e);
    lemma_dir_not_through(ps, name);
    lemma_edit_keeps_place(t, place, ps, name, e, ps);
    lemma_seen_through(base, after, place, ps, seq![name] + rest);
}

/// What is seen at the path of a node that is taken out, and below it.
proof fn lemma_removal_seen(
    base: Paths,
    t: TreeView,
    place: Place,
    ps: Seq<Seq<char>>,
    name: Seq<char>,
    rest: Seq<Seq<char>>,
)
    requires
        way_is_open(t, ps),
    ensures
        seen(base, without(t, ps, name), place, ps.push(name) + rest) == in_base(
            base,
            place_at(t, place, ps),
            seq![name] + rest,
        ),
{
    let after = without(t, ps, name);
    let q = seq![name] + rest;
    assert(ps.push(name) + rest =~= ps + q);
    lemma_way_stays_open_without(t, ps, name, ps);
    lemma_dir_not_through(ps, name);
    lemma_removal_keeps_place(t, place, ps, name, ps);
    lemma_seen_through(base, after, place, ps, q);
    lemma_taken_out(t, ps, name);
    lemma_child_of(after, ps, name);
    assert(q[0] == name);
}

/// The child of a directory, found by way of its children.
proof fn lemma_child_of(t: TreeView, ps: Seq<Seq<char>>, name: Seq<char>)
    ensures
        way_is_open(t, ps) ==> node_below(t, ps, name) == child(children_at(t, ps), name),
    decreases ps.len(),
{
    if ps.len() > 0 {
        match child(t, ps[0]) {
            Some(NodeView::Dir(_, sub)) => {
                lemma_child_of(sub, ps.skip(1), name);
            },
            _ => {},
        }
    }
}

// ── Entries that base does not have ──────────────────────────────────

/// Base has nothing of that name at the place, and nothing below it.
pub open spec fn clear(base: Paths, place: Place, name: Seq<char>) -> bool {
    forall|rest: Seq<Seq<char>>| (#[trigger] in_base(base, place, seq![name] + rest)) is None
}

/// Along the path, entries that are not in base are so rightly.
pub open spec fn truthful_along(base: Paths, t: TreeView, place: Place, q: Seq<Seq<char>>) -> bool
    decreases q.len(),
{
    q.len() == 0 || match child(t, q[0]) {
        None => true,
        Some(n) => (!n.dentry().covers_base() ==> clear(base, place, q[0])) && truthful_along(
            base,
            inside(n),
            within(n.dentry(), place, q[0]),
            q.skip(1),
        ),
    }
}

/// Entries that are not in base are so rightly: base has nothing there.
pub open spec fn truthful(base: Paths, t: TreeView, place: Place) -> bool {
    forall|q: Seq<Seq<char>>| #[trigger] truthful_along(base, t, place, q)
}

/// The same of a node of that name.
spec fn node_truthful(base: Paths, n: NodeView, place: Place, name: Seq<char>) -> bool {
    &&& !n.dentry().covers_base() ==> clear(base, place, name)
    &&& truthful(base, inside(n), within(n.dentry(), place, name))
}

proof fn lemma_child_truthful(base: Paths, t: TreeView, place: Place, name: Seq<char>)
    requires
        truthful(base, t, place),
        t.contains_key(name),
    ensures
        node_truthful(base, t[name], place, name),
{
    let n = t[name];
    assert(truthful_along(base, t, place, seq![name]));
    assert forall|q: Seq<Seq<char>>| #[trigger]
        truthful_along(base, inside(n), within(n.dentry(), place, name), q) by {
        let r = seq![name] + q;
        assert(r.skip(1) =~= q);
        assert(truthful_along(base, t, place, r));
    }
}

proof fn lemma_put_truthful(base: Paths, t: TreeView, place: Place, name: Seq<char>, n: NodeView)
    requires
        truthful(base, t, place),
        node_truthful(base, n, place, name),
    ensures
        truthful(base, t.insert(name, n), place),
{
    let r = t.insert(name, n);
    assert forall|q: Seq<Seq<char>>| #[trigger] truthful_along(base, r, place, q) by {
        assert(truthful_along(base, t, place, q));
        if q.len() > 0 && q[0] == name {
            assert(truthful_along(
                base,
                inside(n),
                within(n.dentry(), place, name),
                q.skip(1),
            ));
        }
    }
}

proof fn lemma_drop_truthful(base: Paths, t: TreeView, place: Place, name: Seq<char>)
    requires
        truthful(base, t, place),
    ensures
        truthful(base, t.remove(name), place),
{
    assert forall|q: Seq<Seq<char>>| #[trigger]
        truthful_along(base, t.remove(name), place, q) by {
        assert(truthful_along(base, t, place, q));
    }
}

proof fn lemma_empty_truthful(base: Paths, place: Place)
    ensures
        truthful(base, Map::empty(), place),
{
}

proof fn lemma_nowhere_along(base: Paths, t: TreeView, place: Place, q: Seq<Seq<char>>)
    requires
        truthful_along(base, t, place, q),
    ensures
        truthful_along(base, t, None, q),
    decreases q.len(),
{
    if q.len() > 0 {
        if let Some(n) = child(t, q[0]) {
            if n.dentry().passes() {
                lemma_nowhere_along(
                    base,
                    inside(n),
                    within(n.dentry(), place, q[0]),
                    q.skip(1),
                );
            }
        }
    }
}

/// Over nothing, entries are truthful if they are so anywhere.
proof fn lemma_nowhere_truthful(base: Paths, t: TreeView, place: Place)
    requires
        truthful(base, t, place),
    ensures
        truthful(base, t, None),
{
    assert forall|q: Seq<Seq<char>>| #[trigger] truthful_along(base, t, None, q) by {
        lemma_nowhere_along(base, t, place, q);
    }
}

/// What an edit puts in place is truthful there.
spec fn edit_truthful(base: Paths, e: EditView, place: Place, name: Seq<char>) -> bool {
    match e {
        EditView::Stage(d, _) => d.target is Inode && (!d.in_base ==> clear(base, place, name)),
        EditView::Place(n) => node_truthful(base, n, place, name),
        EditView::Settle(n) => match n {
            NodeView::Dir(_, sub) => truthful(base, sub, within(passthrough(), place, name)),
            NodeView::File(_) => true,
        },
        _ => true,
    }
}

proof fn lemma_edited_truthful(
    base: Paths,
    t: TreeView,
    place: Place,
    name: Seq<char>,
    e: EditView,
)
    requires
        truthful(base, t, place),
        edit_truthful(base, e, place, name),
    ensures
        truthful(base, edited(t, name, e), place),
{
    lemma_empty_truthful(base, None);
    if t.contains_key(name) {
        lemma_child_truthful(base, t, place, name);
        lemma_nowhere_truthful(
            base,
            inside(t[name]),
            within(t[name].dentry(), place, name),
        );
    }
    match e {
        EditView::Stage(d, is_dir) => {
            let n = if is_dir {
                match child(t, name) {
                    Some(NodeView::Dir(_, sub)) => NodeView::Dir(d, sub),
                    _ => NodeView::Dir(d, Map::empty()),
                }
            } else {
                NodeView::File(d)
            };
            lemma_put_truthful(base, t, place, name, n);
        },
        EditView::Delete(is_dir) => {
            lemma_put_truthful(base, t, place, name, tombstoned(child(t, name), is_dir));
            lemma_drop_truthful(base, t, place, name);
        },
        EditView::Tombstone(is_dir) => {
            lemma_put_truthful(base, t, place, name, tombstoned(child(t, name), is_dir));
        },
        EditView::Place(n) => {
            lemma_put_truthful(base, t, place, name, n);
        },
        EditView::Settle(n) => {
            match n {
                NodeView::Dir(_, sub) => {
                    let dir = NodeView::Dir(passthrough(), sub);
                    lemma_put_truthful(base, t, place, name, dir);
                },
                NodeView::File(_) => {
                    lemma_drop_truthful(base, t, place, name);
                },
            }
        },
    }
}

proof fn lemma_edited_below_truthful(
    base: Paths,
    t: TreeView,
    place: Place,
    ps: Seq<Seq<char>>,
    name: Seq<char>,
    e: EditView,
)
    requires
        truthful(base, t, place),
        edit_truthful(base, e, place_at(t, place, ps), name),
    ensures
        truthful(base, edited_below(t, ps, name, e), place),
    decreases ps.len(),
{
    if ps.len() == 0 {
        lemma_edited_truthful(base, t, place, name, e);
    } else {
        match child(t, ps[0]) {
            Some(NodeView::File(_)) => {},
            Some(NodeView::Dir(d, sub)) => {
                lemma_child_truthful(base, t, place, ps[0]);
                let pl = within(d, place, ps[0]);
                lemma_edited_below_truthful(base, sub, pl, ps.skip(1), name, e);
                let below = edited_below(sub, ps.skip(1), name, e);
                lemma_put_truthful(base, t, place, ps[0], NodeView::Dir(d, below));
            },
            None => {
                let pl = within(passthrough(), place, ps[0]);
                lemma_empty_truthful(base, pl);
                if let Some(p) = place {
                    assert(p + ps =~= p.push(ps[0]) + ps.skip(1));
                    if ps.len() == 1 {
                        assert(p + ps =~= p.push(ps[0]));
                    }
                }
                assert(place_at(Map::empty(), pl, ps.skip(1)) == place_at(t, place, ps));
                lemma_edited_below_truthful(base, Map::empty(), pl, ps.skip(1), name, e);
                let below = edited_below(Map::empty(), ps.skip(1), name, e);
                lemma_put_truthful(base, t, place, ps[0], NodeView::Dir(passthrough(), below));
            },
        }
    }
}

proof fn lemma_without_truthful(
    base: Paths,
    t: TreeView,
    place: Place,
    ps: Seq<Seq<char>>,
    name: Seq<char>,
)
    requires
        truthful(base, t, place),
    ensures
        truthful(base, without(t, ps, name), place),
    decreases ps.len(),
{
    if ps.len() == 0 {
        lemma_drop_truthful(base, t, place, name);
    } else {
        match child(t, ps[0]) {
            Some(NodeView::Dir(d, sub)) => {
                lemma_child_truthful(base, t, place, ps[0]);
                let pl = within(d, place, ps[0]);
                lemma_without_truthful(base, sub, pl, ps.skip(1), name);
                let below = without(sub, ps.skip(1), name);
                lemma_put_truthful(base, t, place, ps[0], NodeView::Dir(d, below));
            },
            _ => {},
        }
    }
}

proof fn lemma_below_truthful(
    base: Paths,
    t: TreeView,
    place: Place,
    ps: Seq<Seq<char>>,
    name: Seq<char>,
)
    requires
        truthful(base, t, place),
    ensures
        node_below(t, ps, name) matches Some(n) ==> node_truthful(
            base,
            n,
            place_at(t, place, ps),
            name,
        ),
    decreases ps.len(),
{
    if ps.len() == 0 {
        if t.contains_key(name) {
            lemma_child_truthful(base, t, place, name);
        }
    } else {
        match child(t, ps[0]) {
            Some(NodeView::Dir(d, sub)) => {
                lemma_child_truthful(base, t, place, ps[0]);
                lemma_below_truthful(base, sub, within(d, place, ps[0]), ps.skip(1), name);
            },
            _ => {},
        }
    }
}

// ── Carrying actions out ─────────────────────────────────────────────

/// What stands where.
pub type Files = spec_fn(Seq<Seq<char>>) -> Option<Content>;

/// The place of the whole tree.
pub open spec fn root() -> Place {
    Some(Seq::empty())
}

/// What the tree shows at every path.
pub open spec fn view_of(base: Paths, t: TreeView) -> Files {
    |q: Seq<Seq<char>>| seen(base, t, root(), q)
}

/// What stands where after an action has been carried out. A deletion and a
/// move take what is below a path along.
pub open spec fn carried_out(f: Files, a: Action) -> Files {
    match a {
        Action::Add { path, ino, .. } => written(f, names(path@), ino),
        Action::Modify { path, ino, .. } => written(f, names(path@), ino),
        Action::Delete { path, .. } => deleted(f, names(path@)),
        Action::Rename { src, dst, .. } => moved(f, names(src@), names(dst@)),
        Action::Replace { src, dst, .. } => moved(f, names(src@), names(dst@)),
    }
}

/// What stands where after an inode has been put at a path.
pub open spec fn written(f: Files, p: Seq<Seq<char>>, ino: u32) -> Files {
    |q: Seq<Seq<char>>|
        if q == p {
            Some(Content::Staged(ino))
        } else {
            f(q)
        }
}

/// What stands where after a path has been deleted.
pub open spec fn deleted(f: Files, p: Seq<Seq<char>>) -> Files {
    |q: Seq<Seq<char>>|
        if goes_through(q, p) {
            None
        } else {
            f(q)
        }
}

/// What stands where after a path has been moved.
pub open spec fn moved(f: Files, src: Seq<Seq<char>>, dst: Seq<Seq<char>>) -> Files {
    |q: Seq<Seq<char>>|
        if goes_through(q, dst) {
            f(src + q.skip(dst.len() as int))
        } else if goes_through(q, src) {
            None
        } else {
            f(q)
        }
}

/// Nothing is shown below the path.
pub open spec fn bare(base: Paths, t: TreeView, p: Seq<Seq<char>>) -> bool {
    forall|rest: Seq<Seq<char>>|
        rest.len() > 0 ==> (#[trigger] seen(base, t, root(), p + rest)) is None
}

/// The two paths of a move.
pub open spec fn ends(src: Seq<char>, dst: Seq<char>) -> Ends {
    Ends {
        src,
        dst,
        src_dir: (parent_and_name(src)->0).0,
        src_name: (parent_and_name(src)->0).1,
        dst_dir: (parent_and_name(dst)->0).0,
        dst_name: (parent_and_name(dst)->0).1,
    }
}

/// A path can be written or deleted: it has a last name, no leaf stands in its
/// way, and nothing is shown below it.
pub open spec fn path_fits(base: Paths, t: TreeView, path: Seq<char>) -> bool {
    match parent_and_name(path) {
        Some((ps, name)) => way_is_open(t, ps) && bare(base, t, ps.push(name)),
        None => false,
    }
}

/// What is staged at the source of a move comes from its destination.
pub open spec fn comes_back(t: TreeView, m: Ends) -> bool {
    match staged_at(t, m.from()) {
        Some(d) => d.target == TargetView::Path(Some(m.dst)),
        None => false,
    }
}

/// Something can be moved: it is shown, no leaf stands in the way at either
/// end, and where base has to be named, the directory in question is where it
/// is in base.
pub open spec fn move_fits(base: Paths, t: TreeView, src: Seq<char>, dst: Seq<char>) -> bool {
    let m = ends(src, dst);
    &&& m.wf()
    &&& way_is_open(t, m.src_dir)
    &&& way_is_open(t, m.dst_dir)
    &&& seen(base, t, root(), m.from()) is Some
    &&& staged_at(t, m.from()) is None ==> place_at(t, root(), m.src_dir) == Some(m.src_dir)
    &&& comes_back(t, m) ==> place_at(t, root(), m.dst_dir) == Some(m.dst_dir)
}

/// The action is one that the kernel module records of a session in this
/// state: an addition is new to base, what is written or deleted holds nothing
/// any more, and what is renamed goes where base has nothing.
pub open spec fn fits(base: Paths, t: TreeView, a: Action) -> bool {
    match a {
        Action::Add { path, .. } => path_fits(base, t, path@) && ({
            let (ps, name) = parent_and_name(path@)->0;
            clear(base, place_at(t, root(), ps), name)
        }),
        Action::Modify { path, .. } => path_fits(base, t, path@),
        Action::Delete { path, .. } => path_fits(base, t, path@),
        Action::Rename { src, dst, .. } => src@ == dst@ || (move_fits(base, t, src@, dst@) && clear(
            base,
            place_at(t, root(), ends(src@, dst@).dst_dir),
            ends(src@, dst@).dst_name,
        )),
        Action::Replace { src, dst, .. } => src@ == dst@ || move_fits(base, t, src@, dst@),
    }
}

/// What a path leads to from a prefix of it.
proof fn lemma_rest(q: Seq<Seq<char>>, p: Seq<Seq<char>>)
    requires
        goes_through(q, p),
    ensures
        q == p + q.skip(p.len() as int),
{
    assert(q =~= p + q.skip(p.len() as int)) by {
        assert forall|i: int| 0 <= i < p.len() implies q[i] == p[i] by {
            assert(q.take(p.len() as int)[i] == q[i]);
        }
    }
}

/// What is seen of a child with a given name, and below it.
proof fn lemma_seen_child(
    base: Paths,
    t: TreeView,
    place: Place,
    name: Seq<char>,
    rest: Seq<Seq<char>>,
)
    ensures
        seen(base, t, place, seq![name] + rest) == (match child(t, name) {
            None => in_base(base, place, seq![name] + rest),
            Some(n) => if rest.len() == 0 {
                shown_by(base, n.dentry(), place, name)
            } else {
                seen(base, inside(n), within(n.dentry(), place, name), rest)
            },
        }),
{
    let q = seq![name] + rest;
    assert(q[0] == name);
    assert(q.skip(1) =~= rest);
}

/// Writing an inode.
proof fn lemma_write_shows(
    base: Paths,
    t: TreeView,
    path: Seq<char>,
    d: DentryView,
    ino: u32,
    is_dir: bool,
    q: Seq<Seq<char>>,
)
    requires
        path_fits(base, t, path),
        d.target == TargetView::Inode(ino),
    ensures
        seen(base, edited_at(t, path, EditView::Stage(d, is_dir)), root(), q) == written(
            view_of(base, t),
            names(path),
            ino,
        )(q),
{
    let (ps, name) = parent_and_name(path)->0;
    let p = ps.push(name);
    law_names_of_parent(path);
    let e = EditView::Stage(d, is_dir);
    if goes_through(q, p) {
        let rest = q.skip(p.len() as int);
        lemma_rest(q, p);
        lemma_edit_seen(base, t, root(), ps, name, e, rest);
        let cs = children_at(t, ps);
        let pl = place_at(t, root(), ps);
        lemma_seen_child(base, edited(cs, name, e), pl, name, rest);
        if rest.len() == 0 {
            assert(q =~= p);
        } else {
            assert(q.len() != p.len());
            assert(seen(base, t, root(), p + rest) is None);
            lemma_seen_through(base, t, root(), ps, seq![name] + rest);
            assert(p + rest =~= ps + (seq![name] + rest));
            lemma_seen_child(base, cs, pl, name, rest);
            if let Some(n) = child(cs, name) {
                lemma_less_seen(base, inside(n), within(n.dentry(), pl, name), rest);
            }
            lemma_seen_empty(base, None, rest);
        }
    } else {
        lemma_edit_unseen(base, t, root(), ps, name, e, q);
        if q == p {
            assert(q.take(p.len() as int) =~= p);
        }
    }
}

/// Deleting.
proof fn lemma_delete_shows(
    base: Paths,
    t: TreeView,
    path: Seq<char>,
    is_dir: bool,
    q: Seq<Seq<char>>,
)
    requires
        path_fits(base, t, path),
        truthful(base, t, root()),
    ensures
        seen(base, edited_at(t, path, EditView::Delete(is_dir)), root(), q) == deleted(
            view_of(base, t),
            names(path),
        )(q),
{
    let (ps, name) = parent_and_name(path)->0;
    let p = ps.push(name);
    law_names_of_parent(path);
    let e = EditView::Delete(is_dir);
    if goes_through(q, p) {
        let rest = q.skip(p.len() as int);
        lemma_rest(q, p);
        lemma_edit_seen(base, t, root(), ps, name, e, rest);
        let cs = children_at(t, ps);
        let pl = place_at(t, root(), ps);
        lemma_seen_child(base, edited(cs, name, e), pl, name, rest);
        lemma_child_of(t, ps, name);
        lemma_below_truthful(base, t, root(), ps, name);
        if rest.len() > 0 {
            assert(seen(base, t, root(), p + rest) is None);
            lemma_seen_through(base, t, root(), ps, seq![name] + rest);
            assert(p + rest =~= ps + (seq![name] + rest));
            lemma_seen_child(base, cs, pl, name, rest);
            if let Some(n) = child(cs, name) {
                lemma_less_seen(base, inside(n), within(n.dentry(), pl, name), rest);
            }
            lemma_seen_empty(base, None, rest);
        }
    } else {
        lemma_edit_unseen(base, t, root(), ps, name, e, q);
    }
}

/// The tree of a move once its source is gone.
spec fn source_cleared(t: TreeView, m: Ends, is_dir: bool) -> TreeView {
    let t1 = without(t, m.src_dir, m.src_name);
    let covered = match node_below(t, m.src_dir, m.src_name) {
        Some(n) => n.dentry().covers_base(),
        None => true,
    };
    if covered {
        edited_below(t1, m.src_dir, m.src_name, EditView::Tombstone(is_dir))
    } else {
        t1
    }
}

/// What a move puts at its destination.
spec fn arrival(t: TreeView, m: Ends, is_dir: bool, in_base: bool) -> EditView {
    let n = moved_node(node_below(t, m.src_dir, m.src_name), m.src, is_dir, in_base);
    if n.dentry().target == TargetView::Path(Some(m.dst)) {
        EditView::Settle(n)
    } else {
        EditView::Place(n)
    }
}

proof fn lemma_move_in_steps(t: TreeView, m: Ends, is_dir: bool, in_base: bool)
    requires
        m.wf(),
    ensures
        m.src != m.dst,
        after_move(t, m.dst, m.src, is_dir, in_base) == edited_below(
            source_cleared(t, m, is_dir),
            m.dst_dir,
            m.dst_name,
            arrival(t, m, is_dir, in_base),
        ),
{
    if m.src == m.dst {
        assert(m.from().take(m.to().len() as int) =~= m.to());
        assert(false);
    }
}

/// The first step of a move: its source is gone, and nothing else has changed.
proof fn lemma_source_cleared(base: Paths, t: TreeView, m: Ends, is_dir: bool)
    requires
        m.wf(),
        way_is_open(t, m.src_dir),
        way_is_open(t, m.dst_dir),
        truthful(base, t, root()),
    ensures
        way_is_open(source_cleared(t, m, is_dir), m.dst_dir),
        place_at(source_cleared(t, m, is_dir), root(), m.dst_dir) == place_at(
            t,
            root(),
            m.dst_dir,
        ),
        truthful(base, source_cleared(t, m, is_dir), root()),
        forall|q: Seq<Seq<char>>|
            #![trigger seen(base, source_cleared(t, m, is_dir), root(), q)]
            seen(base, source_cleared(t, m, is_dir), root(), q) == (if goes_through(q, m.from()) {
                None
            } else {
                seen(base, t, root(), q)
            }),
{
    let (ps, name) = (m.src_dir, m.src_name);
    let t1 = without(t, ps, name);
    let node = node_below(t, ps, name);
    let tomb = EditView::Tombstone(is_dir);
    let t2 = source_cleared(t, m, is_dir);
    let covered = match node {
        Some(n) => n.dentry().covers_base(),
        None => true,
    };
    lemma_parent_not_through(m.dst_dir, m.dst_name, m.from());
    lemma_way_stays_open_without(t, ps, name, m.dst_dir);
    lemma_removal_keeps_place(t, root(), ps, name, m.dst_dir);
    lemma_without_truthful(base, t, root(), ps, name);
    lemma_below_truthful(base, t, root(), ps, name);
    lemma_way_stays_open_without(t, ps, name, ps);
    if covered {
        lemma_way_stays_open(t1, ps, name, tomb, m.dst_dir);
        lemma_edit_keeps_place(t1, root(), ps, name, tomb, m.dst_dir);
        lemma_edited_below_truthful(base, t1, root(), ps, name, tomb);
    }
    assert forall|q: Seq<Seq<char>>|
        #![trigger seen(base, t2, root(), q)]
        seen(base, t2, root(), q) == (if goes_through(q, m.from()) {
            None
        } else {
            seen(base, t, root(), q)
        }) by {
        if goes_through(q, m.from()) {
            let rest = q.skip(m.from().len() as int);
            lemma_rest(q, m.from());
            if covered {
                lemma_edit_seen(base, t1, root(), ps, name, tomb, rest);
                lemma_taken_out(t, ps, name);
                lemma_child_of(t1, ps, name);
                let cs = children_at(t1, ps);
                lemma_seen_child(
                    base,
                    edited(cs, name, tomb),
                    place_at(t1, root(), ps),
                    name,
                    rest,
                );
                if rest.len() > 0 {
                    lemma_seen_empty(base, None, rest);
                }
            } else {
                lemma_removal_seen(base, t, root(), ps, name, rest);
            }
        } else {
            lemma_removal_unseen(base, t, root(), ps, name, q);
            if covered {
                lemma_edit_unseen(base, t1, root(), ps, name, tomb, q);
            }
        }
    }
}

/// What a move takes along is truthful where it arrives.
proof fn lemma_arrival_truthful(
    base: Paths,
    t: TreeView,
    m: Ends,
    is_dir: bool,
    in_base_flag: bool,
)
    requires
        leaves_staged(t),
        truthful(base, t, root()),
        move_fits(base, t, m.src, m.dst),
        m == ends(m.src, m.dst),
        !in_base_flag ==> clear(base, place_at(t, root(), m.dst_dir), m.dst_name),
    ensures
        edit_truthful(
            base,
            arrival(t, m, is_dir, in_base_flag),
            place_at(t, root(), m.dst_dir),
            m.dst_name,
        ),
{
    law_names_of_parent(m.src);
    law_names_of_parent(m.dst);
    law_lookups_agree(t, m.src_dir, m.src_name);
    lemma_below_truthful(base, t, root(), m.src_dir, m.src_name);
    lemma_move_in_steps(t, m, is_dir, in_base_flag);
    lemma_empty_truthful(base, Some(names(m.src)));
    let node = node_below(t, m.src_dir, m.src_name);
    match node {
        Some(n) => {
            lemma_empty_truthful(
                base,
                within(n.dentry(), place_at(t, root(), m.src_dir), m.src_name),
            );
        },
        None => {},
    }
}

/// What is seen where a move arrives.
proof fn lemma_arrival_seen(
    base: Paths,
    t: TreeView,
    cs: TreeView,
    m: Ends,
    is_dir: bool,
    in_base_flag: bool,
    rest: Seq<Seq<char>>,
)
    requires
        leaves_staged(t),
        move_fits(base, t, m.src, m.dst),
        m == ends(m.src, m.dst),
    ensures
        seen(
            base,
            edited(cs, m.dst_name, arrival(t, m, is_dir, in_base_flag)),
            place_at(t, root(), m.dst_dir),
            seq![m.dst_name] + rest,
        ) == seen(base, t, root(), m.from() + rest),
{
    law_names_of_parent(m.src);
    law_names_of_parent(m.dst);
    law_lookups_agree(t, m.src_dir, m.src_name);
    lemma_move_in_steps(t, m, is_dir, in_base_flag);
    let e = arrival(t, m, is_dir, in_base_flag);
    let from_dir = children_at(t, m.src_dir);
    let pl_s = place_at(t, root(), m.src_dir);
    let pl_d = place_at(t, root(), m.dst_dir);
    assert(m.from() + rest =~= m.src_dir + (seq![m.src_name] + rest));
    lemma_seen_through(base, t, root(), m.src_dir, seq![m.src_name] + rest);
    lemma_seen_child(base, from_dir, pl_s, m.src_name, rest);
    lemma_child_of(t, m.src_dir, m.src_name);
    lemma_seen_child(base, edited(cs, m.dst_name, e), pl_d, m.dst_name, rest);
    // The ways in which one path of base can be put together.
    assert(m.from() + Seq::<Seq<char>>::empty() =~= m.from());
    assert(m.to() + Seq::<Seq<char>>::empty() =~= m.to());
    assert(m.src_dir + seq![m.src_name] =~= m.from());
    assert(m.dst_dir + seq![m.dst_name] =~= m.to());
    assert(m.src_dir + (seq![m.src_name] + rest) =~= m.from() + rest);
    assert(m.dst_dir + (seq![m.dst_name] + rest) =~= m.to() + rest);
    if rest.len() == 0 {
        assert(seq![m.src_name] + rest =~= seq![m.src_name]);
        assert(seq![m.dst_name] + rest =~= seq![m.dst_name]);
    } else {
        lemma_seen_empty(base, Some(m.from()), rest);
        lemma_seen_empty(base, Some(m.to()), rest);
    }
}

/// Moving.
proof fn lemma_move_shows(
    base: Paths,
    t: TreeView,
    m: Ends,
    is_dir: bool,
    in_base_flag: bool,
    q: Seq<Seq<char>>,
)
    requires
        leaves_staged(t),
        truthful(base, t, root()),
        move_fits(base, t, m.src, m.dst),
        m == ends(m.src, m.dst),
    ensures
        seen(base, after_move(t, m.dst, m.src, is_dir, in_base_flag), root(), q) == moved(
            view_of(base, t),
            names(m.src),
            names(m.dst),
        )(q),
{
    law_names_of_parent(m.src);
    law_names_of_parent(m.dst);
    lemma_move_in_steps(t, m, is_dir, in_base_flag);
    lemma_source_cleared(base, t, m, is_dir);
    let t2 = source_cleared(t, m, is_dir);
    let e = arrival(t, m, is_dir, in_base_flag);
    if goes_through(q, m.to()) {
        let rest = q.skip(m.to().len() as int);
        lemma_rest(q, m.to());
        lemma_edit_seen(base, t2, root(), m.dst_dir, m.dst_name, e, rest);
        lemma_arrival_seen(
            base,
            t,
            children_at(t2, m.dst_dir),
            m,
            is_dir,
            in_base_flag,
            rest,
        );
    } else {
        lemma_edit_unseen(base, t2, root(), m.dst_dir, m.dst_name, e, q);
        assert(seen(base, t2, root(), q) == (if goes_through(q, m.from()) {
            None
        } else {
            seen(base, t, root(), q)
        }));
    }
}

// ── The law ──────────────────────────────────────────────────────────

/// After an action the tree shows what carrying the action out on what it
/// showed before would leave.
pub proof fn law_action_shows(base: Paths, t: TreeView, a: Action)
    requires
        leaves_staged(t),
        truthful(base, t, root()),
        fits(base, t, a),
    ensures
        forall|q: Seq<Seq<char>>|
            #![trigger seen(base, after_action(t, a), root(), q)]
            seen(base, after_action(t, a), root(), q) == carried_out(view_of(base, t), a)(q),
        truthful(base, after_action(t, a), root()),
        leaves_staged(after_action(t, a)),
{
    law_leaves_are_staged(t, seq![a]);
    assert(seq![a].drop_last() =~= Seq::<Action>::empty());
    assert(after_actions(t, seq![a].drop_last()) == t);
    assert forall|q: Seq<Seq<char>>|
        #![trigger seen(base, after_action(t, a), root(), q)]
        seen(base, after_action(t, a), root(), q) == carried_out(view_of(base, t), a)(q) by {
        match a {
            Action::Add { path, dtype, ino } => {
                let d = DentryView { target: TargetView::Inode(ino), in_base: false };
                lemma_write_shows(base, t, path@, d, ino, is_directory(dtype), q);
            },
            Action::Modify { path, dtype, ino } => {
                let d = DentryView { target: TargetView::Inode(ino), in_base: true };
                lemma_write_shows(base, t, path@, d, ino, is_directory(dtype), q);
            },
            Action::Delete { path, dtype } => {
                lemma_delete_shows(base, t, path@, is_directory(dtype), q);
            },
            Action::Rename { src, dst, dtype } => {
                lemma_move_or_stay_shows(base, t, src@, dst@, is_directory(dtype), false, q);
            },
            Action::Replace { src, dst, dtype } => {
                lemma_move_or_stay_shows(base, t, src@, dst@, is_directory(dtype), true, q);
            },
        }
    }
    match a {
        Action::Add { path, dtype, ino } => {
            let d = DentryView { target: TargetView::Inode(ino), in_base: false };
            let e = EditView::Stage(d, is_directory(dtype));
            let (ps, name) = parent_and_name(path@)->0;
            lemma_edited_below_truthful(base, t, root(), ps, name, e);
        },
        Action::Modify { path, dtype, ino } => {
            let d = DentryView { target: TargetView::Inode(ino), in_base: true };
            let e = EditView::Stage(d, is_directory(dtype));
            let (ps, name) = parent_and_name(path@)->0;
            lemma_edited_below_truthful(base, t, root(), ps, name, e);
        },
        Action::Delete { path, dtype } => {
            let e = EditView::Delete(is_directory(dtype));
            let (ps, name) = parent_and_name(path@)->0;
            lemma_edited_below_truthful(base, t, root(), ps, name, e);
        },
        Action::Rename { src, dst, dtype } => {
            lemma_move_truthful(base, t, src@, dst@, is_directory(dtype), false);
        },
        Action::Replace { src, dst, dtype } => {
            lemma_move_truthful(base, t, src@, dst@, is_directory(dtype), true);
        },
    }
}

proof fn lemma_move_or_stay_shows(
    base: Paths,
    t: TreeView,
    src: Seq<char>,
    dst: Seq<char>,
    is_dir: bool,
    in_base_flag: bool,
    q: Seq<Seq<char>>,
)
    requires
        leaves_staged(t),
        truthful(base, t, root()),
        src == dst || move_fits(base, t, src, dst),
    ensures
        seen(base, after_move(t, dst, src, is_dir, in_base_flag), root(), q) == moved(
            view_of(base, t),
            names(src),
            names(dst),
        )(q),
{
    if src == dst {
        let p = names(dst);
        if goes_through(q, p) {
            lemma_rest(q, p);
        }
    } else {
        lemma_move_shows(base, t, ends(src, dst), is_dir, in_base_flag, q);
    }
}

proof fn lemma_move_truthful(
    base: Paths,
    t: TreeView,
    src: Seq<char>,
    dst: Seq<char>,
    is_dir: bool,
    in_base_flag: bool,
)
    requires
        leaves_staged(t),
        truthful(base, t, root()),
        src == dst || (move_fits(base, t, src, dst) && (!in_base_flag ==> clear(
            base,
            place_at(t, root(), ends(src, dst).dst_dir),
            ends(src, dst).dst_name,
        ))),
    ensures
        truthful(base, after_move(t, dst, src, is_dir, in_base_flag), root()),
{
    if src != dst {
        let m = ends(src, dst);
        lemma_move_in_steps(t, m, is_dir, in_base_flag);
        lemma_source_cleared(base, t, m, is_dir);
        lemma_arrival_truthful(base, t, m, is_dir, in_base_flag);
        lemma_edited_below_truthful(
            base,
            source_cleared(t, m, is_dir),
            root(),
            m.dst_dir,
            m.dst_name,
            arrival(t, m, is_dir, in_base_flag),
        );
    }
}

/// What stands where in base.
pub open spec fn base_files(base: Paths) -> Files {
    |q: Seq<Seq<char>>|
        if q.len() > 0 && base.contains(q) {
            Some(Content::Base(q))
        } else {
            None
        }
}

/// What stands where after the actions have been carried out, one after the other.
pub open spec fn all_carried_out(f: Files, s: Seq<Action>) -> Files
    decreases s.len(),
{
    if s.len() == 0 {
        f
    } else {
        carried_out(all_carried_out(f, s.drop_last()), s.last())
    }
}

/// Each action fits the state that the ones before it have left.
pub open spec fn all_fit(base: Paths, s: Seq<Action>) -> bool
    decreases s.len(),
{
    s.len() == 0 || (all_fit(base, s.drop_last()) && fits(
        base,
        after_actions(Map::empty(), s.drop_last()),
        s.last(),
    ))
}

proof fn lemma_same_outcome(f: Files, g: Files, a: Action)
    requires
        forall|q: Seq<Seq<char>>| #[trigger] f(q) == g(q),
    ensures
        forall|q: Seq<Seq<char>>| #[trigger] carried_out(f, a)(q) == carried_out(g, a)(q),
{
}

/// The tree of a sequence of actions shows, over base, what carrying the
/// actions out on base one after the other leaves there: what is shown is what
/// a commit gives.
pub proof fn law_tree_shows_commit(base: Paths, s: Seq<Action>)
    requires
        all_fit(base, s),
    ensures
        forall|q: Seq<Seq<char>>| #[trigger]
            seen(base, after_actions(Map::empty(), s), root(), q) == all_carried_out(
                base_files(base),
                s,
            )(q),
        truthful(base, after_actions(Map::empty(), s), root()),
        leaves_staged(after_actions(Map::empty(), s)),
    decreases s.len(),
{
    if s.len() == 0 {
        lemma_empty_truthful(base, root());
        law_leaves_are_staged(Map::empty(), s);
        assert forall|q: Seq<Seq<char>>| #[trigger]
            seen(base, after_actions(Map::empty(), s), root(), q) == base_files(base)(q) by {
            if q.len() > 0 {
                lemma_seen_empty(base, root(), q);
                assert(Seq::<Seq<char>>::empty() + q =~= q);
            }
        }
    } else {
        law_tree_shows_commit(base, s.drop_last());
        let t = after_actions(Map::empty(), s.drop_last());
        law_action_shows(base, t, s.last());
        let f = view_of(base, t);
        let g = all_carried_out(base_files(base), s.drop_last());
        assert forall|q: Seq<Seq<char>>| #[trigger] f(q) == g(q) by {
            assert(seen(base, t, root(), q) == g(q));
        }
        lemma_same_outcome(f, g, s.last());
        assert(after_actions(Map::empty(), s) == after_action(t, s.last()));
    }
}

} // verus!
