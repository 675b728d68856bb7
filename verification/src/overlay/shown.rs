//! That reports show what the tree shows.
use super::laws::{
    children_at, law_edit_takes_effect, law_lookups_agree, law_move_arrives,
    law_move_leaves_its_source, leaves_staged, way_is_open, Ends,
};
use super::listing::{lists, lemma_listing_len, staged_paths};
use super::path::{law_names_of_parent, names, parent_and_name, rendered};
use super::markers::survives;
use super::report::{
    are_blocks_of, are_changes_of, asked_for, changes_listed, live_positions, shown_of,
    shows_segment,
};
use super::tree::{
    after_action, after_segments, child, node_at, staged_at, DentryView, NodeView, TargetView,
    TreeView,
};
use super::types::{Action, Marker, Segment};
use super::view::{
    clear, in_base, inside, place_at, root, seen, truthful, truthful_along, within, Content, Paths,
    Place,
};
use crate::diff::ShownView;
use crate::report::{change_views, Block};
use crate::sift::{lemma_sift_positions, sift};
use vstd::prelude::*;

verus! {

/// What is shown of a changed path agrees with what is seen there: a staged
/// inode, nothing, or what base has at another path.
pub open spec fn agrees(base: Paths, shown: ShownView, there: Option<Content>) -> bool {
    match shown {
        ShownView::Added(ino) => there matches Some(Content::Staged(i)) && i as u64 == ino,
        ShownView::Modified(ino) => there matches Some(Content::Staged(i)) && i as u64 == ino,
        ShownView::Deleted => there is None,
        ShownView::Renamed(p) => there == if base.contains(names(p)) {
            Some(Content::Base(names(p)))
        } else {
            None
        },
    }
}

proof fn lemma_seen_at_node(base: Paths, t: TreeView, place: Place, ps: Seq<Seq<char>>)
    requires
        staged_at(t, ps) is Some,
    ensures
        seen(base, t, place, ps) == match (staged_at(t, ps)->0).target {
            TargetView::Inode(ino) => Some(Content::Staged(ino)),
            TargetView::Nothing => None,
            TargetView::Path(Some(s)) => if base.contains(names(s)) {
                Some(Content::Base(names(s)))
            } else {
                None
            },
            TargetView::Path(None) => None,
        },
    decreases ps.len(),
{
    if ps.len() > 1 {
        if let Some(NodeView::Dir(d, sub)) = child(t, ps[0]) {
            lemma_seen_at_node(base, sub, within(d, place, ps[0]), ps.skip(1));
        }
    } else if let TargetView::Path(Some(s)) = (staged_at(t, ps)->0).target {
        assert(names(s) + Seq::<Seq<char>>::empty() =~= names(s));
    }
}

/// What is shown of a staged entry is what the tree shows at its path, over
/// any base. A staged inode is shown where one is seen and nowhere else.
pub proof fn law_shown_is_seen(base: Paths, t: TreeView, ps: Seq<Seq<char>>)
    requires
        staged_at(t, ps) is Some,
    ensures
        agrees(base, shown_of(staged_at(t, ps)->0), seen(base, t, root(), ps)),
        seen(base, t, root(), ps) matches Some(Content::Staged(i)) ==> (shown_of(
            staged_at(t, ps)->0,
        ) == ShownView::Added(i as u64) || shown_of(staged_at(t, ps)->0) == ShownView::Modified(
            i as u64,
        )),
{
    lemma_seen_at_node(base, t, root(), ps);
}

proof fn lemma_new_is_clear(base: Paths, t: TreeView, place: Place, ps: Seq<Seq<char>>)
    requires
        truthful_along(base, t, place, ps),
        node_at(t, ps) matches Some(n) && !n.dentry().covers_base(),
    ensures
        clear(base, place_at(t, place, ps.drop_last()), ps.last()),
    decreases ps.len(),
{
    if ps.len() == 1 {
        assert(ps.drop_last() =~= Seq::empty());
    } else {
        let n = child(t, ps[0])->0;
        lemma_new_is_clear(base, inside(n), within(n.dentry(), place, ps[0]), ps.skip(1));
        assert(ps.skip(1).drop_last() =~= ps.drop_last().skip(1));
    }
}

/// What is shown as added is new: base has nothing where it stands.
pub proof fn law_added_is_new(base: Paths, t: TreeView, ps: Seq<Seq<char>>)
    requires
        truthful(base, t, root()),
        staged_at(t, ps) is Some,
        shown_of(staged_at(t, ps)->0) is Added,
    ensures
        in_base(base, place_at(t, root(), ps.drop_last()), seq![ps.last()]) is None,
{
    assert(truthful_along(base, t, root(), ps));
    lemma_new_is_clear(base, t, root(), ps);
    let place = place_at(t, root(), ps.drop_last());
    assert(seq![ps.last()] + Seq::<Seq<char>>::empty() =~= seq![ps.last()]);
    assert(in_base(base, place, seq![ps.last()] + Seq::<Seq<char>>::empty()) is None);
}

// ── After an action ──────────────────────────────────────────────────

/// What is shown at a path of the tree, if anything is.
pub open spec fn shown_at(t: TreeView, ps: Seq<Seq<char>>) -> Option<ShownView> {
    match staged_at(t, ps) {
        Some(d) => Some(shown_of(d)),
        None => None,
    }
}

/// A path that is added is shown as added with its inode, and one that is
/// modified as modified.
pub proof fn law_write_is_shown(t: TreeView, path: String, dtype: Option<u8>, ino: u32)
    requires
        parent_and_name(path@) is Some,
        way_is_open(t, (parent_and_name(path@)->0).0),
    ensures
        shown_at(after_action(t, Action::Add { path, dtype, ino }), names(path@)) == Some(
            ShownView::Added(ino as u64),
        ),
        shown_at(after_action(t, Action::Modify { path, dtype, ino }), names(path@)) == Some(
            ShownView::Modified(ino as u64),
        ),
{
    let (ps, name) = parent_and_name(path@)->0;
    law_names_of_parent(path@);
    let a = after_action(t, Action::Add { path, dtype, ino });
    let m = after_action(t, Action::Modify { path, dtype, ino });
    law_lookups_agree(a, ps, name);
    law_lookups_agree(m, ps, name);
    let is_dir = super::tree::is_directory(dtype);
    let e = |in_base: bool| super::tree::EditView::Stage(
        DentryView { target: TargetView::Inode(ino), in_base },
        is_dir,
    );
    law_edit_takes_effect(t, ps, name, e(false));
    law_edit_takes_effect(t, ps, name, e(true));
}

/// A path of which nothing is staged is shown as deleted once it is deleted.
pub proof fn law_deletion_is_shown(t: TreeView, path: String, dtype: Option<u8>)
    requires
        parent_and_name(path@) is Some,
        way_is_open(t, (parent_and_name(path@)->0).0),
        node_at(t, names(path@)) is None,
    ensures
        shown_at(after_action(t, Action::Delete { path, dtype }), names(path@)) == Some(
            ShownView::Deleted,
        ),
{
    let (ps, name) = parent_and_name(path@)->0;
    law_names_of_parent(path@);
    let a = after_action(t, Action::Delete { path, dtype });
    law_lookups_agree(a, ps, name);
    law_lookups_agree(t, ps, name);
    lemma_child_below(t, ps, name);
    law_edit_takes_effect(
        t,
        ps,
        name,
        super::tree::EditView::Delete(super::tree::is_directory(dtype)),
    );
}

proof fn lemma_child_below(t: TreeView, ps: Seq<Seq<char>>, name: Seq<char>)
    requires
        way_is_open(t, ps),
    ensures
        child(children_at(t, ps), name) == super::tree::node_below(t, ps, name),
    decreases ps.len(),
{
    if ps.len() > 0 {
        match child(t, ps[0]) {
            Some(NodeView::Dir(_, sub)) => {
                lemma_child_below(sub, ps.skip(1), name);
            },
            _ => {},
        }
    }
}

/// Something of base that is renamed is shown at its new path as renamed from
/// its old one, and there as deleted.
pub proof fn law_rename_is_shown(t: TreeView, m: Ends, src: String, dst: String, dtype: Option<u8>)
    requires
        m.wf(),
        m.src == src@,
        m.dst == dst@,
        way_is_open(t, m.src_dir),
        way_is_open(t, m.dst_dir),
        leaves_staged(t),
        node_at(t, m.from()) is None,
        src@ != dst@,
    ensures
        shown_at(after_action(t, Action::Rename { src, dst, dtype }), m.to()) == Some(
            ShownView::Renamed(src@),
        ),
        shown_at(after_action(t, Action::Rename { src, dst, dtype }), m.from()) == Some(
            ShownView::Deleted,
        ),
        shown_at(after_action(t, Action::Replace { src, dst, dtype }), m.to()) == Some(
            ShownView::Renamed(src@),
        ),
        shown_at(after_action(t, Action::Replace { src, dst, dtype }), m.from()) == Some(
            ShownView::Deleted,
        ),
{
    let is_dir = super::tree::is_directory(dtype);
    law_move_arrives(t, m, is_dir, false);
    law_move_arrives(t, m, is_dir, true);
    law_move_leaves_its_source(t, m, is_dir, false);
    law_move_leaves_its_source(t, m, is_dir, true);
}

// ── Reports ──────────────────────────────────────────────────────────

/// The change listed is that at a path of the tree, and what is shown of it is
/// what is seen there. Where a path is asked for, it stands there or comes from there.
pub open spec fn is_shown_rightly(
    base: Paths,
    t: TreeView,
    c: (Seq<char>, ShownView),
    query: Option<&str>,
) -> bool {
    &&& exists|ps: Seq<Seq<char>>|
        #[trigger] staged_at(t, ps) is Some && c.0 == rendered(ps) && agrees(
            base,
            c.1,
            seen(base, t, root(), ps),
        ) && shown_at(t, ps) == Some(c.1)
    &&& query matches Some(q) ==> c.0 == q@ || c.1 == ShownView::Renamed(q@)
}

/// The path is among the changes, with what is shown of it.
pub open spec fn is_listed(
    changes: Seq<(Seq<char>, ShownView)>,
    t: TreeView,
    ps: Seq<Seq<char>>,
) -> bool {
    exists|i: int|
        0 <= i < changes.len() && (#[trigger] changes[i]).0 == rendered(ps) && Some(changes[i].1)
            == shown_at(t, ps)
}

proof fn lemma_listed(
    base: Paths,
    t: TreeView,
    cs: Seq<Seq<Seq<char>>>,
    n: int,
    query: Option<&str>,
)
    requires
        lists(cs, t),
        0 <= n <= cs.len(),
    ensures
        forall|i: int|
            0 <= i < changes_listed(t, cs, n, query).len() ==> is_shown_rightly(
                base,
                t,
                #[trigger] changes_listed(t, cs, n, query)[i],
                query,
            ),
        forall|j: int|
            0 <= j < n && asked_for(rendered(#[trigger] cs[j]), staged_at(t, cs[j])->0, query)
                ==> is_listed(changes_listed(t, cs, n, query), t, cs[j]),
        query is None ==> changes_listed(t, cs, n, query).len() == n,
    decreases n,
{
    if n > 0 {
        lemma_listed(base, t, cs, n - 1, query);
        let a = changes_listed(t, cs, n - 1, query);
        let b = changes_listed(t, cs, n, query);
        let ps = cs[n - 1];
        assert(cs.contains(ps));
        assert(staged_at(t, ps) is Some);
        let d = staged_at(t, ps)->0;
        law_shown_is_seen(base, t, ps);
        if asked_for(rendered(ps), d, query) {
            assert(b[a.len() as int] == (rendered(ps), shown_of(d)));
            if let Some(q) = query {
                if rendered(ps) != q@ {
                    assert(d.target == TargetView::Path(Some(q@)));
                    lemma_shown_origin(d, q@);
                }
            }
            assert(is_shown_rightly(base, t, b[a.len() as int], query));
        }
        assert forall|i: int| 0 <= i < b.len() implies is_shown_rightly(
            base,
            t,
            #[trigger] b[i],
            query,
        ) by {
            if i < a.len() {
                assert(b[i] == a[i]);
            }
        }
        assert forall|j: int|
            0 <= j < n && asked_for(
                rendered(#[trigger] cs[j]),
                staged_at(t, cs[j])->0,
                query,
            ) implies is_listed(b, t, cs[j]) by {
            if j < n - 1 {
                assert(is_listed(a, t, cs[j]));
                let i = choose|i: int|
                    0 <= i < a.len() && (#[trigger] a[i]).0 == rendered(cs[j]) && Some(a[i].1)
                        == shown_at(t, cs[j]);
                assert(b[i] == a[i]);
            }
        }
    }
}

/// A redirect is shown as renamed from where it goes.
proof fn lemma_shown_origin(d: DentryView, q: Seq<char>)
    requires
        d.target == TargetView::Path(Some(q)),
    ensures
        shown_of(d) == ShownView::Renamed(q),
{
}

/// The changes of a report agree with what the tree shows over any base.
/// Without a path to ask for there is one for each staged path; with one there
/// are those that stand there, and those that come from there.
pub proof fn law_report_agrees_with_view(
    base: Paths,
    t: TreeView,
    changes: Seq<(Seq<char>, ShownView)>,
    query: Option<&str>,
)
    requires
        are_changes_of(changes, t, query),
    ensures
        forall|i: int|
            0 <= i < changes.len() ==> is_shown_rightly(base, t, #[trigger] changes[i], query),
        forall|ps: Seq<Seq<char>>| #[trigger]
            staged_at(t, ps) is Some && (match query {
                Some(q) => rendered(ps) == q@ || shown_at(t, ps) == Some(ShownView::Renamed(q@)),
                None => true,
            }) ==> is_listed(changes, t, ps),
        query is None ==> changes.len() == staged_paths(t).len(),
{
    let cs = choose|cs: Seq<Seq<Seq<char>>>| #[trigger]
        lists(cs, t) && changes == changes_listed(t, cs, cs.len() as int, query);
    lemma_listed(base, t, cs, cs.len() as int, query);
    lemma_listing_len(cs, t);
    assert forall|ps: Seq<Seq<char>>| #[trigger]
        staged_at(t, ps) is Some && (match query {
            Some(q) => rendered(ps) == q@ || shown_at(t, ps) == Some(ShownView::Renamed(q@)),
            None => true,
        }) implies is_listed(changes, t, ps) by {
        assert(cs.contains(ps));
        let j = choose|j: int| 0 <= j < cs.len() && cs[j] == ps;
        assert(asked_for(rendered(cs[j]), staged_at(t, cs[j])->0, query));
    }
}

/// The blocks of a report are the live segments of the range, in order: none
/// is left out, none is shown that restores have killed or that is not asked
/// for. A block is closed by the checkpoint after its segment, if one is there.
pub proof fn law_blocks_are_live_segments(
    bs: Seq<Block>,
    segments: Seq<Segment>,
    ms: Seq<Marker>,
    start: int,
    end: int,
    query: Option<&str>,
) -> (pos: Seq<int>)
    requires
        are_blocks_of(bs, segments, ms, start, end, query),
        segments.len() == ms.len(),
    ensures
        pos.len() == bs.len(),
        forall|k: int|
            0 <= k < pos.len() ==> 0 <= (#[trigger] pos[k]) < segments.len() && start <= pos[k]
                < end && survives(ms, 0, ms.len() as int, pos[k]) && are_changes_of(
                change_views(bs[k].changes@),
                after_segments(Map::empty(), seq![segments[pos[k]]]),
                query,
            ) && closes(ms, pos[k], bs[k].label),
        forall|j: int, k: int| 0 <= j < k < pos.len() ==> (#[trigger] pos[j]) < (#[trigger] pos[k]),
        forall|i: int|
            0 <= i < segments.len() && start <= i < end && #[trigger] survives(
                ms,
                0,
                ms.len() as int,
                i,
            ) ==> pos.contains(i),
{
    let n = segments.len() as int;
    let all = Seq::new(n as nat, |i: int| i);
    let keep = |i: int| start <= i < end && survives(ms, 0, ms.len() as int, i);
    let pos = lemma_sift_positions(all, n, keep);
    let ps = live_positions(ms, n, start, end);
    assert(ps == sift(all, n, keep));
    assert forall|k: int| 0 <= k < pos.len() implies #[trigger] pos[k] == ps[k] && keep(pos[k])
        && shows_segment(bs[k], segments, ms, pos[k], query) by {
        assert(ps[k] == all[pos[k]]);
        assert(shows_segment(bs[k], segments, ms, ps[k], query));
    }
    assert forall|i: int|
        0 <= i < segments.len() && start <= i < end && #[trigger] survives(
            ms,
            0,
            ms.len() as int,
            i,
        ) implies pos.contains(i) by {
        assert(keep(i));
        let k = choose|k: int| 0 <= k < pos.len() && #[trigger] pos[k] == i;
        assert(pos[k] == i);
    }
    pos
}

/// The label is that of the checkpoint after segment `i`; there is none where
/// a restore or the end of the journal is there.
pub open spec fn closes(ms: Seq<Marker>, i: int, label: Option<(u64, String)>) -> bool {
    match label {
        Some((g, name)) => g > 0 && i + 1 < ms.len() && ms[i + 1] == (Marker::Checkpoint {
            gen_id: g,
            name,
        }),
        None => i + 1 < ms.len() ==> ms[i + 1] is Restore || ms[i + 1].generation() == 0,
    }
}

} // verus!
