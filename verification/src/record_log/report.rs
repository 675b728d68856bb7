//! Reports on the record log: what its changes come to, segment by segment.
use super::effect::{stands, Content, Paths};
use super::resolve::{
    are_changes_of, are_segments_of, at_path, origin_at, resolve_segments, Change, Segment, Staged,
    State,
};
use super::staging::{
    law_changes_tell_state, moved_to, some, tells, tells_path, told, written_to,
};
use super::timeline::{reachable, reached, slice_records, sliced};
use super::types::Record;
use crate::diff::{label_of, Shown, ShownView};
use crate::error::Error;
use crate::report::{
    change_count, change_views, item_views, lay_out, report_items, Block, Layout, Report,
};
use vstd::prelude::*;

verus! {

/// The path under which a change is shown, and what is shown of it.
pub open spec fn shown_of(c: Change) -> (Seq<char>, ShownView) {
    match c {
        Change::Added { path, ino, .. } => (path@, ShownView::Added(ino)),
        Change::Modified { path, ino, .. } => (path@, ShownView::Modified(ino)),
        Change::Deleted(path) => (path@, ShownView::Deleted),
        Change::Renamed { from, to, .. } => (to@, ShownView::Renamed(from@)),
        Change::Replaced { from, to, .. } => (to@, ShownView::Renamed(from@)),
    }
}

/// Those of the first `n` changes that are asked for, as they are shown.
pub open spec fn shown_changes(s: Seq<Change>, n: int, query: Option<&str>) -> Seq<
    (Seq<char>, ShownView),
>
    decreases n,
{
    if n <= 0 {
        Seq::empty()
    } else {
        let wanted = match query {
            Some(q) => s[n - 1].is_about(q@),
            None => true,
        };
        if wanted {
            shown_changes(s, n - 1, query).push(shown_of(s[n - 1]))
        } else {
            shown_changes(s, n - 1, query)
        }
    }
}

/// The block shows a segment.
pub open spec fn shows_segment(b: Block, seg: Segment, query: Option<&str>) -> bool {
    &&& change_views(b.changes@) == shown_changes(
        seg.changes@,
        seg.changes@.len() as int,
        query,
    )
    &&& b.label == (match seg.to {
        Some(c) => Some((c.gen_id, c.name)),
        None => None,
    })
}

/// The blocks show the segments, one after the other.
pub open spec fn are_blocks_of(bs: Seq<Block>, segs: Seq<Segment>, query: Option<&str>) -> bool {
    &&& bs.len() == segs.len()
    &&& forall|k: int| 0 <= k < bs.len() ==> shows_segment(#[trigger] bs[k], segs[k], query)
}

/// The path under which a change is shown, and what is shown of it.
fn show(c: Change) -> (r: (String, Shown))
    ensures
        (r.0@, r.1@) == shown_of(c),
{
    match c {
        Change::Added { path, ino, .. } => (path, Shown::Added(ino)),
        Change::Modified { path, ino, .. } => (path, Shown::Modified(ino)),
        Change::Deleted(path) => (path, Shown::Deleted),
        Change::Renamed { from, to, .. } => (to, Shown::Renamed(from)),
        Change::Replaced { from, to, .. } => (to, Shown::Renamed(from)),
    }
}

/// The block that shows a segment.
fn block_of(seg: Segment, query: Option<&str>) -> (b: Block)
    ensures
        shows_segment(b, seg, query),
{
    let ghost s = seg.changes@;
    let mut changes: Vec<(String, Shown)> = Vec::new();
    assert(change_views(changes@) =~= shown_changes(s, 0, query));
    for c in it: seg.changes
        invariant
            it.seq() == s,
            change_views(changes@) == shown_changes(s, it.index() as int, query),
    {
        let ghost before = changes@;
        let wanted: bool = match query {
            Some(q) => c.matches_path(q),
            None => true,
        };
        if wanted {
            let e = show(c);
            changes.push(e);
            assert(change_views(changes@) =~= change_views(before).push((e.0@, e.1@)));
        }
    }
    let label: Option<(u64, String)> = match seg.to {
        Some(c) => Some((c.gen_id, c.name)),
        None => None,
    };
    Block { changes, label }
}

/// The report is that on the segments of the records.
pub open spec fn is_report_on(
    r: Report,
    s: Seq<Record>,
    query: Option<&str>,
    layout: Layout,
    label: Seq<char>,
) -> bool {
    exists|segs: Seq<Segment>, bs: Seq<Block>| #[trigger]
        are_segments_of(segs, s) && #[trigger] are_blocks_of(bs, segs, query) && item_views(
            r.items@,
        ) == report_items(bs, layout, label) && r.has_changes == (change_count(
            bs,
            bs.len() as int,
        ) > 0)
}

fn run(
    records: Vec<Record>,
    verbose: bool,
    at: Option<&str>,
    from: Option<&str>,
    to: Option<&str>,
    path: Option<&str>,
) -> (r: Result<Report, Error>)
    ensures
        match (r, sliced(reached(records@), at, from, to)) {
            (Ok(rep), Ok(s)) => is_report_on(
                rep,
                s,
                path,
                Layout { verbose, filtered: path is Some, marks_unsaved: true },
                label_of(at, from, to),
            ),
            (Err(Error::CheckpointNotFound(n)), Err(m)) => n@ == m,
            _ => false,
        },
{
    let live = reachable(records);
    let slice = match slice_records(live, at, from, to) {
        Ok(s) => s,
        Err(e) => return Err(e),
    };
    let ghost s = slice@;
    let segments = match resolve_segments(slice) {
        Ok(v) => v,
        Err(e) => return Err(e),
    };
    let ghost segs = segments@;
    let mut blocks: Vec<Block> = Vec::new();
    for seg in it: segments
        invariant
            it.seq() == segs,
            blocks@.len() == it.index(),
            forall|k: int|
                0 <= k < blocks@.len() ==> shows_segment(#[trigger] blocks@[k], segs[k], path),
    {
        blocks.push(block_of(seg, path));
    }
    let ghost bs = blocks@;
    let layout = Layout { verbose, filtered: path.is_some(), marks_unsaved: true };
    let rep = lay_out(blocks, layout, at, from, to);
    proof {
        assert(are_segments_of(segs, s) && are_blocks_of(bs, segs, path));
    }
    Ok(rep)
}

/// The report on the reachable changes of a query: a line for each, and their number.
pub fn run_status(
    records: Vec<Record>,
    at: Option<&str>,
    from: Option<&str>,
    to: Option<&str>,
) -> (r: Result<Report, Error>)
    ensures
        match (r, sliced(reached(records@), at, from, to)) {
            (Ok(rep), Ok(s)) => is_report_on(
                rep,
                s,
                None,
                Layout { verbose: false, filtered: false, marks_unsaved: true },
                label_of(at, from, to),
            ),
            (Err(Error::CheckpointNotFound(n)), Err(m)) => n@ == m,
            _ => false,
        },
{
    run(records, false, at, from, to, None)
}

/// The report on the reachable changes of a query, to be shown with contents.
/// A path narrows it down to the changes that are about it.
pub fn run_diff(
    records: Vec<Record>,
    at: Option<&str>,
    from: Option<&str>,
    to: Option<&str>,
    path: Option<&str>,
) -> (r: Result<Report, Error>)
    ensures
        match (r, sliced(reached(records@), at, from, to)) {
            (Ok(rep), Ok(s)) => is_report_on(
                rep,
                s,
                path,
                Layout { verbose: true, filtered: path is Some, marks_unsaved: true },
                label_of(at, from, to),
            ),
            (Err(Error::CheckpointNotFound(n)), Err(m)) => n@ == m,
            _ => false,
        },
{
    run(records, true, at, from, to, path)
}

// ── Laws ─────────────────────────────────────────────────────────────

/// What is shown of a path is what the state says of it: what stands there, or
/// where what stands there was moved from.
pub open spec fn is_right(base: Paths, m: State, c: (Seq<char>, ShownView)) -> bool {
    match c.1 {
        ShownView::Added(ino) => stands(base, m, c.0) == Some(Content::Staged(ino))
            && is_new_at(m, c.0),
        ShownView::Modified(ino) => stands(base, m, c.0) == Some(Content::Staged(ino))
            && !is_new_at(m, c.0),
        ShownView::Deleted => stands(base, m, c.0) is None,
        ShownView::Renamed(from) => from != c.0 && origin_at(m, c.0) == Some(from),
    }
}

/// The state says that what is staged at the path is new to base.
pub open spec fn is_new_at(m: State, p: Seq<char>) -> bool {
    match at_path(m, p) {
        Some(Staged::Stage { is_new, .. }) => is_new,
        _ => false,
    }
}

/// The state says that something has become of the path.
pub open spec fn is_changed(m: State, p: Seq<char>) -> bool {
    match at_path(m, p) {
        Some(Staged::Rename { origin, ino, .. }) => origin@ != p || ino is Some,
        Some(_) => true,
        None => false,
    }
}

/// The path is shown.
pub open spec fn is_shown(v: Seq<(Seq<char>, ShownView)>, p: Seq<char>) -> bool {
    exists|i: int| 0 <= i < v.len() && (#[trigger] v[i]).0 == p
}

/// A change is asked for: all are where no path is.
spec fn is_wanted(c: Change, query: Option<&str>) -> bool {
    match query {
        Some(q) => c.is_about(q@),
        None => true,
    }
}

proof fn lemma_shown(c: Seq<Change>, n: int, query: Option<&str>)
    requires
        0 <= n <= c.len(),
    ensures
        forall|i: int|
            0 <= i < shown_changes(c, n, query).len() ==> exists|j: int|
                0 <= j < n && is_wanted(#[trigger] c[j], query) && shown_of(c[j])
                    == #[trigger] shown_changes(c, n, query)[i],
        forall|j: int|
            0 <= j < n && is_wanted(#[trigger] c[j], query) ==> exists|i: int|
                0 <= i < shown_changes(c, n, query).len() && #[trigger] shown_changes(
                    c,
                    n,
                    query,
                )[i] == shown_of(c[j]),
        query is None ==> shown_changes(c, n, query).len() == n,
    decreases n,
{
    if n > 0 {
        lemma_shown(c, n - 1, query);
        let (a, b) = (shown_changes(c, n - 1, query), shown_changes(c, n, query));
        assert forall|i: int| 0 <= i < b.len() implies exists|j: int|
            0 <= j < n && is_wanted(#[trigger] c[j], query) && shown_of(c[j])
                == #[trigger] b[i] by {
            if i < a.len() {
                assert(b[i] == a[i]);
                let j = choose|j: int|
                    0 <= j < n - 1 && is_wanted(#[trigger] c[j], query) && shown_of(c[j]) == a[i];
                assert(is_wanted(c[j], query));
            } else {
                assert(is_wanted(c[n - 1], query));
            }
        }
        assert forall|j: int| 0 <= j < n && is_wanted(#[trigger] c[j], query) implies exists|
            i: int,
        | 0 <= i < b.len() && #[trigger] b[i] == shown_of(c[j]) by {
            if j < n - 1 {
                let i = choose|i: int| 0 <= i < a.len() && #[trigger] a[i] == shown_of(c[j]);
                assert(b[i] == a[i]);
            } else {
                assert(b[a.len() as int] == shown_of(c[j]));
            }
        }
    }
}

proof fn lemma_told_right(m: State, base: Paths, x: Change, query: Option<&str>)
    requires
        told(m, x),
        is_wanted(x, query),
    ensures
        is_right(base, m, shown_of(x)),
        query matches Some(q) ==> shown_of(x).0 == q@ || shown_of(x).1 == ShownView::Renamed(q@),
{
}

/// A change that is about what has become of `p`.
proof fn lemma_change_of_path(c: Seq<Change>, m: State, p: Seq<char>) -> (j: int)
    requires
        tells(c, m),
        is_changed(m, p),
    ensures
        0 <= j < c.len(),
        told(m, c[j]),
        shown_of(c[j]).0 == p,
        origin_at(m, p) matches Some(o) ==> o != p ==> c[j].is_about(o),
        c[j].is_about(p),
{
    assert(tells_path(c, m, p));
    let (fw, fm, fd) = (
        |x: Change| written_to(x) == Some(p),
        |x: Change| moved_to(x) == Some(p),
        |x: Change| x is Deleted && x.is_about(p),
    );
    let f = if origin_at(m, p) is Some && origin_at(m, p) != Some(p) {
        assert(some(c, fm));
        fm
    } else if at_path(m, p) == Some(Staged::Delete) {
        assert(some(c, fd));
        fd
    } else {
        assert(some(c, fw));
        fw
    };
    let j = choose|j: int| 0 <= j < c.len() && f(#[trigger] c[j]);
    assert(told(m, c[j]));
    j
}

/// What a report shows of the changes of a state is what the state says.
/// Without a path to ask for every path that has changed is shown; with one it
/// is, if it has changed, and so is every path that something was moved to from it.
pub proof fn law_report_tells_state(c: Seq<Change>, m: State, base: Paths, query: Option<&str>)
    requires
        are_changes_of(c, m),
    ensures
        ({
            let v = shown_changes(c, c.len() as int, query);
            &&& forall|i: int| 0 <= i < v.len() ==> is_right(base, m, #[trigger] v[i])
            &&& query matches Some(q) ==> forall|i: int|
                0 <= i < v.len() ==> (#[trigger] v[i]).0 == q@ || v[i].1 == ShownView::Renamed(q@)
            &&& forall|p: Seq<char>| #[trigger]
                is_changed(m, p) && (match query {
                    Some(q) => p == q@ || (origin_at(m, p) == Some(q@) && p != q@),
                    None => true,
                }) ==> is_shown(v, p)
            &&& query is None ==> v.len() == c.len()
        }),
{
    let n = c.len() as int;
    let v = shown_changes(c, n, query);
    law_changes_tell_state(c, m);
    lemma_shown(c, n, query);
    assert forall|i: int| 0 <= i < v.len() implies is_right(base, m, #[trigger] v[i]) && (
    query matches Some(q) ==> v[i].0 == q@ || v[i].1 == ShownView::Renamed(q@)) by {
        let j = choose|j: int|
            0 <= j < n && is_wanted(#[trigger] c[j], query) && shown_of(c[j]) == v[i];
        lemma_told_right(m, base, c[j], query);
    }
    assert forall|p: Seq<char>| #[trigger]
        is_changed(m, p) && (match query {
            Some(q) => p == q@ || (origin_at(m, p) == Some(q@) && p != q@),
            None => true,
        }) implies is_shown(v, p) by {
        let j = lemma_change_of_path(c, m, p);
        assert(is_wanted(c[j], query));
        let i = choose|i: int| 0 <= i < v.len() && #[trigger] v[i] == shown_of(c[j]);
        assert(v[i].0 == p);
    }
}

} // verus!
