//! Laws of the tree: what an action changes, what it leaves alone, and which
//! actions cancel out.
use super::path::parent_and_name;
use super::tree::{
    after_action, after_actions, after_move, child, edited, edited_at, edited_below, is_directory,
    moved_node, node_at, node_below, passthrough, source_gone, source_node, staged_at, tombstone,
    tombstoned, without, DentryView, EditView, NodeView, TargetView, TreeView,
};
use super::types::Action;
use vstd::prelude::*;

verus! {

/// True when the path `q` is `p` or leads through it.
pub open spec fn goes_through(q: Seq<Seq<char>>, p: Seq<Seq<char>>) -> bool {
    p.len() <= q.len() && q.take(p.len() as int) == p
}

/// The children of the directory at `ps`; none where it is not there.
pub open spec fn children_at(t: TreeView, ps: Seq<Seq<char>>) -> TreeView
    decreases ps.len(),
{
    if ps.len() == 0 {
        t
    } else {
        match child(t, ps[0]) {
            Some(NodeView::Dir(_, sub)) => children_at(sub, ps.skip(1)),
            _ => Map::empty(),
        }
    }
}

/// True when no leaf stands in the way to the directory at `ps`.
pub open spec fn way_is_open(t: TreeView, ps: Seq<Seq<char>>) -> bool
    decreases ps.len(),
{
    if ps.len() == 0 {
        true
    } else {
        match child(t, ps[0]) {
            Some(NodeView::Dir(_, sub)) => way_is_open(sub, ps.skip(1)),
            Some(NodeView::File(_)) => false,
            None => true,
        }
    }
}

pub(crate) proof fn lemma_through_skip(q: Seq<Seq<char>>, ps: Seq<Seq<char>>, name: Seq<char>)
    requires
        ps.len() > 0,
        q.len() > 0,
        q[0] == ps[0],
    ensures
        goes_through(q, ps.push(name)) == goes_through(q.skip(1), ps.skip(1).push(name)),
{
    let p = ps.push(name);
    let r = ps.skip(1).push(name);
    assert(p.skip(1) =~= r);
    if p.len() <= q.len() {
        assert(q.skip(1).take(r.len() as int) =~= q.take(p.len() as int).skip(1));
        if q.skip(1).take(r.len() as int) == r {
            assert(q.take(p.len() as int) =~= p) by {
                assert forall|i: int| 0 <= i < p.len() implies q.take(p.len() as int)[i]
                    == p[i] by {
                    if i > 0 {
                        assert(q.skip(1).take(r.len() as int)[i - 1] == r[i - 1]);
                    }
                }
            }
        }
    }
}

pub(crate) proof fn lemma_through_first(q: Seq<Seq<char>>, name: Seq<char>)
    ensures
        goes_through(q, seq![name]) == (q.len() > 0 && q[0] == name),
{
    if q.len() > 0 {
        if q[0] == name {
            assert(q.take(1) =~= seq![name]);
        } else {
            assert(q.take(1)[0] != seq![name][0]);
        }
    }
}

/// An edit at a path changes no staged entry but that at the path and those below it.
pub proof fn law_edit_leaves_the_rest(
    t: TreeView,
    ps: Seq<Seq<char>>,
    name: Seq<char>,
    e: EditView,
    q: Seq<Seq<char>>,
)
    requires
        !goes_through(q, ps.push(name)),
    ensures
        staged_at(edited_below(t, ps, name, e), q) == staged_at(t, q),
    decreases ps.len(),
{
    if ps.len() == 0 {
        assert(ps.push(name) =~= seq![name]);
        lemma_through_first(q, name);
    } else if q.len() > 0 && q[0] == ps[0] {
        lemma_through_skip(q, ps, name);
        let c = q.skip(1);
        match child(t, ps[0]) {
            Some(NodeView::Dir(_, sub)) => {
                law_edit_leaves_the_rest(sub, ps.skip(1), name, e, c);
            },
            Some(NodeView::File(_)) => {},
            None => {
                law_edit_leaves_the_rest(Map::empty(), ps.skip(1), name, e, c);
            },
        }
    }
}

/// Taking a node out changes no staged entry but that of the node and those below it.
pub proof fn law_removal_leaves_the_rest(
    t: TreeView,
    ps: Seq<Seq<char>>,
    name: Seq<char>,
    q: Seq<Seq<char>>,
)
    requires
        !goes_through(q, ps.push(name)),
    ensures
        staged_at(without(t, ps, name), q) == staged_at(t, q),
    decreases ps.len(),
{
    if ps.len() == 0 {
        assert(ps.push(name) =~= seq![name]);
        lemma_through_first(q, name);
    } else if q.len() > 0 && q[0] == ps[0] {
        lemma_through_skip(q, ps, name);
        match child(t, ps[0]) {
            Some(NodeView::Dir(_, sub)) => {
                law_removal_leaves_the_rest(sub, ps.skip(1), name, q.skip(1));
            },
            _ => {},
        }
    }
}

/// An edit takes effect at its path, where no leaf stands in the way.
pub proof fn law_edit_takes_effect(
    t: TreeView,
    ps: Seq<Seq<char>>,
    name: Seq<char>,
    e: EditView,
)
    requires
        way_is_open(t, ps),
    ensures
        node_below(edited_below(t, ps, name, e), ps, name) == child(
            edited(children_at(t, ps), name, e),
            name,
        ),
    decreases ps.len(),
{
    if ps.len() > 0 {
        match child(t, ps[0]) {
            Some(NodeView::Dir(_, sub)) => {
                law_edit_takes_effect(sub, ps.skip(1), name, e);
            },
            _ => {
                lemma_nothing_below(ps.skip(1));
                law_edit_takes_effect(Map::empty(), ps.skip(1), name, e);
            },
        }
    }
}

pub(crate) proof fn lemma_nothing_below(ps: Seq<Seq<char>>)
    ensures
        way_is_open(Map::empty(), ps),
        children_at(Map::empty(), ps) == Map::<Seq<char>, NodeView>::empty(),
{
}

pub(crate) proof fn lemma_taken_out(t: TreeView, ps: Seq<Seq<char>>, name: Seq<char>)
    ensures
        node_below(without(t, ps, name), ps, name) is None,
    decreases ps.len(),
{
    if ps.len() > 0 {
        match child(t, ps[0]) {
            Some(NodeView::Dir(_, sub)) => {
                lemma_taken_out(sub, ps.skip(1), name);
            },
            _ => {},
        }
    }
}

/// The lookup of a move finds what the lookup by path finds.
pub proof fn law_lookups_agree(t: TreeView, ps: Seq<Seq<char>>, name: Seq<char>)
    ensures
        node_below(t, ps, name) == node_at(t, ps.push(name)),
    decreases ps.len(),
{
    if ps.len() == 0 {
        assert(ps.push(name) =~= seq![name]);
    } else {
        assert(ps.push(name).skip(1) =~= ps.skip(1).push(name));
        match child(t, ps[0]) {
            Some(NodeView::Dir(_, sub)) => {
                law_lookups_agree(sub, ps.skip(1), name);
            },
            _ => {},
        }
    }
}

/// Below a path at which no directory stands nothing is staged.
proof fn lemma_nothing_through(
    t: TreeView,
    ps: Seq<Seq<char>>,
    name: Seq<char>,
    q: Seq<Seq<char>>,
)
    requires
        node_below(t, ps, name) is None,
        goes_through(q, ps.push(name)),
    ensures
        staged_at(t, q) is None,
    decreases ps.len(),
{
    assert(q[0] == q.take(ps.len() as int + 1)[0]);
    if ps.len() == 0 {
        assert(ps.push(name)[0] == name);
    } else {
        assert(ps.push(name)[0] == ps[0]);
        lemma_through_skip(q, ps, name);
        match child(t, ps[0]) {
            Some(NodeView::Dir(_, sub)) => {
                lemma_nothing_through(sub, ps.skip(1), name, q.skip(1));
            },
            _ => {},
        }
    }
}

proof fn lemma_without_absent(t: TreeView, ps: Seq<Seq<char>>, name: Seq<char>)
    requires
        node_below(t, ps, name) is None,
    ensures
        without(t, ps, name) == t,
    decreases ps.len(),
{
    if ps.len() == 0 {
        assert(t.remove(name) =~= t);
    } else {
        match child(t, ps[0]) {
            Some(NodeView::Dir(d, sub)) => {
                lemma_without_absent(sub, ps.skip(1), name);
                assert(t.insert(ps[0], NodeView::Dir(d, sub)) =~= t);
            },
            _ => {},
        }
    }
}

pub(crate) proof fn lemma_way_stays_open(
    t: TreeView,
    ps: Seq<Seq<char>>,
    name: Seq<char>,
    e: EditView,
    qs: Seq<Seq<char>>,
)
    requires
        way_is_open(t, qs),
        !goes_through(qs, ps.push(name)),
    ensures
        way_is_open(edited_below(t, ps, name, e), qs),
    decreases ps.len(),
{
    if qs.len() > 0 {
        if ps.len() == 0 {
            assert(ps.push(name) =~= seq![name]);
            lemma_through_first(qs, name);
        } else if qs[0] == ps[0] {
            lemma_through_skip(qs, ps, name);
            match child(t, ps[0]) {
                Some(NodeView::Dir(_, sub)) => {
                    lemma_way_stays_open(sub, ps.skip(1), name, e, qs.skip(1));
                },
                Some(NodeView::File(_)) => {},
                None => {
                    lemma_nothing_below(qs.skip(1));
                    lemma_way_stays_open(Map::empty(), ps.skip(1), name, e, qs.skip(1));
                },
            }
        }
    }
}

pub(crate) proof fn lemma_way_stays_open_without(
    t: TreeView,
    ps: Seq<Seq<char>>,
    name: Seq<char>,
    qs: Seq<Seq<char>>,
)
    requires
        way_is_open(t, qs),
    ensures
        way_is_open(without(t, ps, name), qs),
    decreases ps.len(),
{
    if qs.len() > 0 && ps.len() > 0 && qs[0] == ps[0] {
        match child(t, ps[0]) {
            Some(NodeView::Dir(_, sub)) => {
                lemma_way_stays_open_without(sub, ps.skip(1), name, qs.skip(1));
            },
            _ => {},
        }
    }
}

/// An addition that is deleted again leaves the staged entries as they were,
/// where nothing stood at the path.
pub proof fn law_add_delete_cancels(
    t: TreeView,
    ps: Seq<Seq<char>>,
    name: Seq<char>,
    ino: u32,
    is_dir: bool,
    q: Seq<Seq<char>>,
)
    requires
        node_below(t, ps, name) is None,
    ensures
        ({
            let d = DentryView { target: TargetView::Inode(ino), in_base: false };
            let added = edited_below(t, ps, name, EditView::Stage(d, is_dir));
            staged_at(edited_below(added, ps, name, EditView::Delete(is_dir)), q) == staged_at(
                t,
                q,
            )
        }),
{
    let d = DentryView { target: TargetView::Inode(ino), in_base: false };
    let added = edited_below(t, ps, name, EditView::Stage(d, is_dir));
    let gone = edited_below(added, ps, name, EditView::Delete(is_dir));
    if goes_through(q, ps.push(name)) {
        lemma_nothing_through(t, ps, name, q);
        if way_is_open(t, ps) {
            law_edit_takes_effect(t, ps, name, EditView::Stage(d, is_dir));
            lemma_open_after(t, ps, name, EditView::Stage(d, is_dir));
            lemma_children_after(t, ps, name, EditView::Stage(d, is_dir));
            law_edit_takes_effect(added, ps, name, EditView::Delete(is_dir));
            lemma_nothing_through(gone, ps, name, q);
        } else {
            lemma_blocked(t, ps, name, EditView::Stage(d, is_dir));
            lemma_blocked(t, ps, name, EditView::Delete(is_dir));
        }
    } else {
        law_edit_leaves_the_rest(t, ps, name, EditView::Stage(d, is_dir), q);
        law_edit_leaves_the_rest(added, ps, name, EditView::Delete(is_dir), q);
    }
}

/// An edit whose way is blocked changes nothing.
proof fn lemma_blocked(t: TreeView, ps: Seq<Seq<char>>, name: Seq<char>, e: EditView)
    requires
        !way_is_open(t, ps),
    ensures
        edited_below(t, ps, name, e) == t,
    decreases ps.len(),
{
    if ps.len() > 0 {
        match child(t, ps[0]) {
            Some(NodeView::Dir(d, sub)) => {
                lemma_blocked(sub, ps.skip(1), name, e);
                assert(t.insert(ps[0], NodeView::Dir(d, sub)) =~= t);
            },
            _ => {},
        }
    }
}

/// The way to the directory of an edit is open after it.
pub(crate) proof fn lemma_open_after(t: TreeView, ps: Seq<Seq<char>>, name: Seq<char>, e: EditView)
    requires
        way_is_open(t, ps),
    ensures
        way_is_open(edited_below(t, ps, name, e), ps),
    decreases ps.len(),
{
    if ps.len() > 0 {
        match child(t, ps[0]) {
            Some(NodeView::Dir(_, sub)) => {
                lemma_open_after(sub, ps.skip(1), name, e);
            },
            _ => {
                lemma_nothing_below(ps.skip(1));
                lemma_open_after(Map::empty(), ps.skip(1), name, e);
            },
        }
    }
}

/// The directory of an edit holds the children that the edit makes.
pub(crate) proof fn lemma_children_after(t: TreeView, ps: Seq<Seq<char>>, name: Seq<char>, e: EditView)
    requires
        way_is_open(t, ps),
    ensures
        children_at(edited_below(t, ps, name, e), ps) == edited(children_at(t, ps), name, e),
    decreases ps.len(),
{
    if ps.len() > 0 {
        match child(t, ps[0]) {
            Some(NodeView::Dir(_, sub)) => {
                lemma_children_after(sub, ps.skip(1), name, e);
            },
            _ => {
                lemma_nothing_below(ps.skip(1));
                lemma_children_after(Map::empty(), ps.skip(1), name, e);
            },
        }
    }
}

/// What is modified and then deleted leaves a negative entry.
pub proof fn law_modified_deleted_is_negative(
    t: TreeView,
    ps: Seq<Seq<char>>,
    name: Seq<char>,
    ino: u32,
    is_dir: bool,
)
    requires
        way_is_open(t, ps),
    ensures
        ({
            let d = DentryView { target: TargetView::Inode(ino), in_base: true };
            let modified = edited_below(t, ps, name, EditView::Stage(d, is_dir));
            staged_at(
                edited_below(modified, ps, name, EditView::Delete(is_dir)),
                ps.push(name),
            ) == Some(tombstone())
        }),
{
    let d = DentryView { target: TargetView::Inode(ino), in_base: true };
    let modified = edited_below(t, ps, name, EditView::Stage(d, is_dir));
    let gone = edited_below(modified, ps, name, EditView::Delete(is_dir));
    law_edit_takes_effect(t, ps, name, EditView::Stage(d, is_dir));
    lemma_open_after(t, ps, name, EditView::Stage(d, is_dir));
    lemma_children_after(t, ps, name, EditView::Stage(d, is_dir));
    law_edit_takes_effect(modified, ps, name, EditView::Delete(is_dir));
    law_lookups_agree(gone, ps, name);
}

/// A rename of what only base has, there and back again, leaves the staged
/// entries as they were, where nothing stood at the two paths and neither
/// leads through the other.
pub proof fn law_rename_round_trip(
    t: TreeView,
    a: Seq<char>,
    b: Seq<char>,
    pa: Seq<Seq<char>>,
    na: Seq<char>,
    pb: Seq<Seq<char>>,
    nb: Seq<char>,
    q: Seq<Seq<char>>,
)
    requires
        parent_and_name(a) == Some((pa, na)),
        parent_and_name(b) == Some((pb, nb)),
        !goes_through(pa.push(na), pb.push(nb)),
        !goes_through(pb.push(nb), pa.push(na)),
        way_is_open(t, pa),
        way_is_open(t, pb),
        node_below(t, pa, na) is None,
        node_below(t, pb, nb) is None,
    ensures
        staged_at(
            after_move(after_move(t, b, a, false, false), a, b, false, false),
            q,
        ) == staged_at(t, q),
{
    let there = after_move(t, b, a, false, false);
    let tomb = EditView::Tombstone(false);
    let r = NodeView::File(DentryView { target: TargetView::Path(Some(a)), in_base: false });
    if a == b {
        assert(pa.push(na).take(pb.push(nb).len() as int) =~= pb.push(nb));
        assert(false);
    }
    // There.
    lemma_without_absent(t, pa, na);
    let t1 = edited_below(t, pa, na, tomb);
    assert(source_node(t, a) is None);
    assert(moved_node(None, a, false, false) == r);
    let t2 = edited_below(t1, pb, nb, EditView::Place(r));
    assert(there == t2);
    lemma_parent_not_through(pb, nb, pa.push(na));
    lemma_parent_not_through(pa, na, pb.push(nb));
    lemma_way_stays_open(t, pa, na, tomb, pb);
    law_edit_takes_effect(t1, pb, nb, EditView::Place(r));
    assert(source_node(t2, b) == Some(r));
    // And back.
    let t3 = without(t2, pb, nb);
    assert(moved_node(Some(r), b, false, false) == r);
    let t4 = edited_below(t3, pa, na, EditView::Settle(r));
    assert(after_move(there, a, b, false, false) == t4);
    lemma_open_after(t, pa, na, tomb);
    lemma_way_stays_open(t1, pb, nb, EditView::Place(r), pa);
    lemma_way_stays_open_without(t2, pb, nb, pa);
    law_edit_takes_effect(t3, pa, na, EditView::Settle(r));
    if goes_through(q, pa.push(na)) {
        lemma_nothing_through(t, pa, na, q);
        lemma_nothing_through(t4, pa, na, q);
    } else {
        law_edit_leaves_the_rest(t3, pa, na, EditView::Settle(r), q);
        if goes_through(q, pb.push(nb)) {
            lemma_nothing_through(t, pb, nb, q);
            lemma_taken_out(t2, pb, nb);
            lemma_nothing_through(t3, pb, nb, q);
        } else {
            law_removal_leaves_the_rest(t2, pb, nb, q);
            law_edit_leaves_the_rest(t1, pb, nb, EditView::Place(r), q);
            law_edit_leaves_the_rest(t, pa, na, tomb, q);
        }
    }
}

/// What does not lead through a path does not do so in its directory either.
pub(crate) proof fn lemma_parent_not_through(ps: Seq<Seq<char>>, name: Seq<char>, p: Seq<Seq<char>>)
    requires
        !goes_through(ps.push(name), p),
    ensures
        !goes_through(ps, p),
{
    if goes_through(ps, p) {
        assert(ps.push(name).take(p.len() as int) =~= ps.take(p.len() as int));
    }
}

/// A move to where a thing is changes nothing.
pub proof fn law_self_rename_is_nothing(t: TreeView, p: String, q: String, dtype: Option<u8>)
    requires
        p@ == q@,
    ensures
        after_action(t, Action::Rename { src: p, dst: q, dtype }) == t,
        after_action(t, Action::Replace { src: p, dst: q, dtype }) == t,
{
}

/// What stands below a directory is what its children hold.
proof fn lemma_node_through(t: TreeView, p: Seq<Seq<char>>, rest: Seq<Seq<char>>)
    requires
        p.len() > 0,
        rest.len() > 0,
    ensures
        node_at(t, p + rest) == (match node_at(t, p) {
            Some(NodeView::Dir(_, sub)) => node_at(sub, rest),
            _ => None,
        }),
    decreases p.len(),
{
    let q = p + rest;
    assert(q[0] == p[0]);
    if p.len() == 1 {
        assert(q.skip(1) =~= rest);
    } else {
        assert(q.skip(1) =~= p.skip(1) + rest);
        match child(t, p[0]) {
            Some(NodeView::Dir(_, sub)) => {
                lemma_node_through(sub, p.skip(1), rest);
            },
            _ => {},
        }
    }
}

/// The two paths of a move: the directory and the name of each.
pub struct Ends {
    pub src: Seq<char>,
    pub dst: Seq<char>,
    pub src_dir: Seq<Seq<char>>,
    pub src_name: Seq<char>,
    pub dst_dir: Seq<Seq<char>>,
    pub dst_name: Seq<char>,
}

impl Ends {
    /// Where the move takes from.
    pub open spec fn from(self) -> Seq<Seq<char>> {
        self.src_dir.push(self.src_name)
    }

    /// Where the move goes.
    pub open spec fn to(self) -> Seq<Seq<char>> {
        self.dst_dir.push(self.dst_name)
    }

    /// The parts are those of the paths, and neither path leads through the other.
    pub open spec fn wf(self) -> bool {
        &&& parent_and_name(self.src) == Some((self.src_dir, self.src_name))
        &&& parent_and_name(self.dst) == Some((self.dst_dir, self.dst_name))
        &&& !goes_through(self.from(), self.to())
        &&& !goes_through(self.to(), self.from())
    }
}

/// The tree of a move before its destination is put in place, and what is put there.
proof fn lemma_move_parts(t: TreeView, m: Ends, is_dir: bool, in_base: bool) -> (r: (
    TreeView,
    EditView,
))
    requires
        m.wf(),
        way_is_open(t, m.dst_dir),
    ensures
        after_move(t, m.dst, m.src, is_dir, in_base) == edited_below(
            r.0,
            m.dst_dir,
            m.dst_name,
            r.1,
        ),
        way_is_open(r.0, m.dst_dir),
        r.1 == ({
            let n = moved_node(node_below(t, m.src_dir, m.src_name), m.src, is_dir, in_base);
            if n.dentry().target == TargetView::Path(Some(m.dst)) {
                EditView::Settle(n)
            } else {
                EditView::Place(n)
            }
        }),
        forall|q: Seq<Seq<char>>|
            !goes_through(q, m.from()) ==> #[trigger] staged_at(r.0, q) == staged_at(t, q),
        way_is_open(t, m.src_dir) ==> staged_at(r.0, m.from()) == (match node_below(
            t,
            m.src_dir,
            m.src_name,
        ) {
            Some(n) => if n.dentry().covers_base() {
                Some(tombstone())
            } else {
                None
            },
            None => Some(tombstone()),
        }),
{
    if m.src == m.dst {
        assert(m.from().take(m.to().len() as int) =~= m.to());
        assert(false);
    }
    let node = node_below(t, m.src_dir, m.src_name);
    let t1 = without(t, m.src_dir, m.src_name);
    let covered = match node {
        Some(n) => n.dentry().covers_base(),
        None => true,
    };
    let tomb = EditView::Tombstone(is_dir);
    let t2 = if covered {
        edited_below(t1, m.src_dir, m.src_name, tomb)
    } else {
        t1
    };
    lemma_parent_not_through(m.dst_dir, m.dst_name, m.from());
    lemma_way_stays_open_without(t, m.src_dir, m.src_name, m.dst_dir);
    if covered {
        lemma_way_stays_open(t1, m.src_dir, m.src_name, tomb, m.dst_dir);
    }
    assert forall|q: Seq<Seq<char>>| !goes_through(q, m.from()) implies #[trigger] staged_at(t2, q)
        == staged_at(t, q) by {
        law_removal_leaves_the_rest(t, m.src_dir, m.src_name, q);
        if covered {
            law_edit_leaves_the_rest(t1, m.src_dir, m.src_name, tomb, q);
        }
    }
    lemma_taken_out(t, m.src_dir, m.src_name);
    law_lookups_agree(t2, m.src_dir, m.src_name);
    if way_is_open(t, m.src_dir) && covered {
        lemma_way_stays_open_without(t, m.src_dir, m.src_name, m.src_dir);
        law_edit_takes_effect(t1, m.src_dir, m.src_name, tomb);
    }
    let n = moved_node(node, m.src, is_dir, in_base);
    let e = if n.dentry().target == TargetView::Path(Some(m.dst)) {
        EditView::Settle(n)
    } else {
        EditView::Place(n)
    };
    (t2, e)
}

/// A move changes no staged entry but those at its two paths and below them.
pub proof fn law_move_leaves_the_rest(
    t: TreeView,
    m: Ends,
    is_dir: bool,
    in_base: bool,
    q: Seq<Seq<char>>,
)
    requires
        m.wf(),
        way_is_open(t, m.dst_dir),
        !goes_through(q, m.from()),
        !goes_through(q, m.to()),
    ensures
        staged_at(after_move(t, m.dst, m.src, is_dir, in_base), q) == staged_at(t, q),
{
    let (t2, e) = lemma_move_parts(t, m, is_dir, in_base);
    law_edit_leaves_the_rest(t2, m.dst_dir, m.dst_name, e, q);
}

/// A move leaves a negative entry at its source where base has something
/// there, and nothing where it has not.
pub proof fn law_move_leaves_its_source(t: TreeView, m: Ends, is_dir: bool, in_base: bool)
    requires
        m.wf(),
        way_is_open(t, m.src_dir),
        way_is_open(t, m.dst_dir),
    ensures
        staged_at(after_move(t, m.dst, m.src, is_dir, in_base), m.from()) == (match node_at(
            t,
            m.from(),
        ) {
            Some(n) => if n.dentry().covers_base() {
                Some(tombstone())
            } else {
                None
            },
            None => Some(tombstone()),
        }),
{
    let (t2, e) = lemma_move_parts(t, m, is_dir, in_base);
    law_lookups_agree(t, m.src_dir, m.src_name);
    law_edit_leaves_the_rest(t2, m.dst_dir, m.dst_name, e, m.from());
}

/// A directory takes along what is staged below it.
pub proof fn law_move_takes_children_along(
    t: TreeView,
    m: Ends,
    is_dir: bool,
    in_base: bool,
    rest: Seq<Seq<char>>,
)
    requires
        m.wf(),
        way_is_open(t, m.dst_dir),
        node_at(t, m.from()) is Some,
        rest.len() > 0,
    ensures
        staged_at(after_move(t, m.dst, m.src, is_dir, in_base), m.to() + rest) == staged_at(
            t,
            m.from() + rest,
        ),
{
    let (t2, e) = lemma_move_parts(t, m, is_dir, in_base);
    let after = after_move(t, m.dst, m.src, is_dir, in_base);
    law_edit_takes_effect(t2, m.dst_dir, m.dst_name, e);
    law_lookups_agree(after, m.dst_dir, m.dst_name);
    law_lookups_agree(t, m.src_dir, m.src_name);
    lemma_node_through(t, m.from(), rest);
    lemma_node_through(after, m.to(), rest);
}

/// At its destination a move puts what was staged at the source, or a redirect
/// to the source where nothing was; what comes back to its own place is not staged.
pub proof fn law_move_arrives(t: TreeView, m: Ends, is_dir: bool, in_base: bool)
    requires
        m.wf(),
        way_is_open(t, m.dst_dir),
        leaves_staged(t),
    ensures
        staged_at(after_move(t, m.dst, m.src, is_dir, in_base), m.to()) == ({
            let target = match staged_at(t, m.from()) {
                Some(d) => d.target,
                None => TargetView::Path(Some(m.src)),
            };
            if target == TargetView::Path(Some(m.dst)) {
                None
            } else {
                Some(DentryView { target, in_base })
            }
        }),
{
    let (t2, e) = lemma_move_parts(t, m, is_dir, in_base);
    let after = after_move(t, m.dst, m.src, is_dir, in_base);
    law_edit_takes_effect(t2, m.dst_dir, m.dst_name, e);
    law_lookups_agree(after, m.dst_dir, m.dst_name);
    law_lookups_agree(t, m.src_dir, m.src_name);
}

// ── Leaves ───────────────────────────────────────────────────────────

/// Every leaf of the tree is staged; only directories lead on without being so.
pub open spec fn leaves_staged(t: TreeView) -> bool {
    forall|ps: Seq<Seq<char>>|
        (#[trigger] node_at(t, ps)) matches Some(NodeView::File(d)) ==> !d.passes()
}

/// The node, if it is a leaf, and every leaf below it is staged.
spec fn node_staged(n: NodeView) -> bool {
    match n {
        NodeView::File(d) => !d.passes(),
        NodeView::Dir(_, sub) => leaves_staged(sub),
    }
}

/// What the edit puts in place is staged.
spec fn edit_staged(e: EditView) -> bool {
    match e {
        EditView::Stage(d, _) => !d.passes(),
        EditView::Place(n) => node_staged(n),
        EditView::Settle(n) => node_staged(n),
        _ => true,
    }
}

proof fn lemma_child_staged(t: TreeView, name: Seq<char>)
    requires
        leaves_staged(t),
        t.contains_key(name),
    ensures
        node_staged(t[name]),
{
    assert(node_at(t, seq![name]) == Some(t[name]));
    if let NodeView::Dir(_, sub) = t[name] {
        assert forall|ps: Seq<Seq<char>>|
            (#[trigger] node_at(sub, ps)) matches Some(NodeView::File(d)) implies !(node_at(
            sub,
            ps,
        )->0->File_0).passes() by {
            lemma_node_through(t, seq![name], ps);
            assert(node_at(t, seq![name] + ps) == node_at(sub, ps));
        }
    }
}

/// Leaves stay staged when a node with staged leaves is put in place.
proof fn lemma_put_staged(t: TreeView, name: Seq<char>, n: NodeView)
    requires
        leaves_staged(t),
        node_staged(n),
    ensures
        leaves_staged(t.insert(name, n)),
{
    let r = t.insert(name, n);
    assert forall|ps: Seq<Seq<char>>|
        (#[trigger] node_at(r, ps)) matches Some(NodeView::File(d)) implies !(node_at(
        r,
        ps,
    )->0->File_0).passes() by {
        if ps.len() > 0 && ps[0] == name {
            if let NodeView::Dir(_, sub) = n {
                if ps.len() > 1 {
                    assert(node_at(r, ps) == node_at(sub, ps.skip(1)));
                }
            }
        } else {
            assert(node_at(r, ps) == node_at(t, ps));
        }
    }
}

/// Leaves stay staged when a node is taken out.
proof fn lemma_drop_staged(t: TreeView, name: Seq<char>)
    requires
        leaves_staged(t),
    ensures
        leaves_staged(t.remove(name)),
{
    let r = t.remove(name);
    assert forall|ps: Seq<Seq<char>>|
        (#[trigger] node_at(r, ps)) matches Some(NodeView::File(d)) implies !(node_at(
        r,
        ps,
    )->0->File_0).passes() by {
        assert(ps[0] != name);
        assert(node_at(r, ps) == node_at(t, ps));
    }
}

proof fn lemma_empty_staged()
    ensures
        leaves_staged(Map::empty()),
{
}

proof fn lemma_edited_staged(t: TreeView, name: Seq<char>, e: EditView)
    requires
        leaves_staged(t),
        edit_staged(e),
    ensures
        leaves_staged(edited(t, name, e)),
{
    lemma_empty_staged();
    if t.contains_key(name) {
        lemma_child_staged(t, name);
    }
    match e {
        EditView::Stage(d, is_dir) => {
            let n = if is_dir {
                match child(t, name) {
                    Some(NodeView::Dir(_, sub)) => NodeView::Dir(d, sub),
                    _ => NodeView::Dir(d, Map::empty()),
                }
            } else {
                NodeView::File(d)
            };
            lemma_put_staged(t, name, n);
        },
        EditView::Delete(is_dir) => {
            lemma_put_staged(t, name, tombstoned(child(t, name), is_dir));
            lemma_drop_staged(t, name);
        },
        EditView::Tombstone(is_dir) => {
            lemma_put_staged(t, name, tombstoned(child(t, name), is_dir));
        },
        EditView::Place(n) => {
            lemma_put_staged(t, name, n);
        },
        EditView::Settle(n) => {
            match n {
                NodeView::Dir(_, sub) => {
                    lemma_put_staged(t, name, NodeView::Dir(passthrough(), sub));
                },
                NodeView::File(_) => {
                    lemma_drop_staged(t, name);
                },
            }
        },
    }
}

proof fn lemma_edited_below_staged(t: TreeView, ps: Seq<Seq<char>>, name: Seq<char>, e: EditView)
    requires
        leaves_staged(t),
        edit_staged(e),
    ensures
        leaves_staged(edited_below(t, ps, name, e)),
    decreases ps.len(),
{
    if ps.len() == 0 {
        lemma_edited_staged(t, name, e);
    } else {
        match child(t, ps[0]) {
            Some(NodeView::File(_)) => {},
            Some(NodeView::Dir(d, sub)) => {
                lemma_child_staged(t, ps[0]);
                lemma_edited_below_staged(sub, ps.skip(1), name, e);
                let below = edited_below(sub, ps.skip(1), name, e);
                lemma_put_staged(t, ps[0], NodeView::Dir(d, below));
            },
            None => {
                lemma_empty_staged();
                lemma_edited_below_staged(Map::empty(), ps.skip(1), name, e);
                let below = edited_below(Map::empty(), ps.skip(1), name, e);
                lemma_put_staged(t, ps[0], NodeView::Dir(passthrough(), below));
            },
        }
    }
}

proof fn lemma_edited_at_staged(t: TreeView, path: Seq<char>, e: EditView)
    requires
        leaves_staged(t),
        edit_staged(e),
    ensures
        leaves_staged(edited_at(t, path, e)),
{
    if let Some((ps, name)) = parent_and_name(path) {
        lemma_edited_below_staged(t, ps, name, e);
    }
}

proof fn lemma_without_staged(t: TreeView, ps: Seq<Seq<char>>, name: Seq<char>)
    requires
        leaves_staged(t),
    ensures
        leaves_staged(without(t, ps, name)),
    decreases ps.len(),
{
    if ps.len() == 0 {
        lemma_drop_staged(t, name);
    } else {
        match child(t, ps[0]) {
            Some(NodeView::Dir(d, sub)) => {
                lemma_child_staged(t, ps[0]);
                lemma_without_staged(sub, ps.skip(1), name);
                let below = without(sub, ps.skip(1), name);
                lemma_put_staged(t, ps[0], NodeView::Dir(d, below));
            },
            _ => {},
        }
    }
}

proof fn lemma_below_staged(t: TreeView, ps: Seq<Seq<char>>, name: Seq<char>)
    requires
        leaves_staged(t),
    ensures
        node_below(t, ps, name) matches Some(n) ==> node_staged(n),
    decreases ps.len(),
{
    if ps.len() == 0 {
        if t.contains_key(name) {
            lemma_child_staged(t, name);
        }
    } else {
        match child(t, ps[0]) {
            Some(NodeView::Dir(_, sub)) => {
                lemma_child_staged(t, ps[0]);
                lemma_below_staged(sub, ps.skip(1), name);
            },
            _ => {},
        }
    }
}

proof fn lemma_move_staged(
    t: TreeView,
    dst: Seq<char>,
    src: Seq<char>,
    is_dir: bool,
    in_base: bool,
)
    requires
        leaves_staged(t),
    ensures
        leaves_staged(after_move(t, dst, src, is_dir, in_base)),
{
    if dst != src {
        lemma_empty_staged();
        let node = source_node(t, src);
        if let Some((ps, name)) = parent_and_name(src) {
            lemma_below_staged(t, ps, name);
            lemma_without_staged(t, ps, name);
        }
        let t1 = source_gone(t, src);
        lemma_edited_at_staged(t1, src, EditView::Tombstone(is_dir));
        let covered = match node {
            Some(n) => n.dentry().covers_base(),
            None => true,
        };
        let t2 = if covered {
            edited_at(t1, src, EditView::Tombstone(is_dir))
        } else {
            t1
        };
        let moved = moved_node(node, src, is_dir, in_base);
        assert(node_staged(moved));
        lemma_edited_at_staged(t2, dst, EditView::Settle(moved));
        lemma_edited_at_staged(t2, dst, EditView::Place(moved));
    }
}

/// Every leaf of a tree that actions have built is staged.
pub proof fn law_leaves_are_staged(t: TreeView, s: Seq<Action>)
    requires
        leaves_staged(t),
    ensures
        leaves_staged(after_actions(t, s)),
        leaves_staged(Map::empty()),
    decreases s.len(),
{
    lemma_empty_staged();
    if s.len() > 0 {
        law_leaves_are_staged(t, s.drop_last());
        let m = after_actions(t, s.drop_last());
        match s.last() {
            Action::Add { path, dtype, ino } => {
                let d = DentryView { target: TargetView::Inode(ino), in_base: false };
                lemma_edited_at_staged(m, path@, EditView::Stage(d, is_directory(dtype)));
            },
            Action::Modify { path, dtype, ino } => {
                let d = DentryView { target: TargetView::Inode(ino), in_base: true };
                lemma_edited_at_staged(m, path@, EditView::Stage(d, is_directory(dtype)));
            },
            Action::Delete { path, dtype } => {
                lemma_edited_at_staged(m, path@, EditView::Delete(is_directory(dtype)));
            },
            Action::Rename { src, dst, dtype } => {
                lemma_move_staged(m, dst@, src@, is_directory(dtype), false);
            },
            Action::Replace { src, dst, dtype } => {
                lemma_move_staged(m, dst@, src@, is_directory(dtype), true);
            },
        }
    }
}

} // verus!
