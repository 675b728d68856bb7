//! Reports on the overlay: what is staged, segment by segment.
use super::journal::Journal;
use super::listing::{lists, shows};
use super::markers::{at_in_range, span, survives};
use super::path::rendered;
use super::tree::{
    after_segments, staged_at, Dentry, DentryView, DirTree, Target, TargetView, TreeView,
};
use super::types::{Marker, Segment};
use crate::diff::{label_of, Shown, ShownView};
use crate::error::{Error, SpanError};
use crate::report::{
    change_count, change_views, item_views, lay_out, report_items, Block, Layout, Report,
};
use crate::sift::sift;
use crate::text::{decimal, number};
use vstd::prelude::*;

verus! {

/// What is shown of a staged entry.
pub open spec fn shown_of(d: DentryView) -> ShownView {
    match d.target {
        TargetView::Inode(ino) => if d.in_base {
            ShownView::Modified(ino as u64)
        } else {
            ShownView::Added(ino as u64)
        },
        TargetView::Nothing => ShownView::Deleted,
        TargetView::Path(Some(p)) => ShownView::Renamed(p),
        TargetView::Path(None) => ShownView::Deleted,
    }
}

/// True when the entry at a path is asked for: all are where no path is, else
/// those that stand at the path or come from it.
pub open spec fn asked_for(path: Seq<char>, d: DentryView, query: Option<&str>) -> bool {
    match query {
        Some(q) => path == q@ || d.target == TargetView::Path(Some(q@)),
        None => true,
    }
}

/// The changes at the first `n` of the paths listed that are asked for.
pub open spec fn changes_listed(
    t: TreeView,
    cs: Seq<Seq<Seq<char>>>,
    n: int,
    query: Option<&str>,
) -> Seq<(Seq<char>, ShownView)>
    decreases n,
{
    if n <= 0 {
        Seq::empty()
    } else {
        let d = staged_at(t, cs[n - 1])->0;
        let before = changes_listed(t, cs, n - 1, query);
        if asked_for(rendered(cs[n - 1]), d, query) {
            before.push((rendered(cs[n - 1]), shown_of(d)))
        } else {
            before
        }
    }
}

/// The changes are those of the tree that are asked for, each path once.
pub open spec fn are_changes_of(
    changes: Seq<(Seq<char>, ShownView)>,
    t: TreeView,
    query: Option<&str>,
) -> bool {
    exists|cs: Seq<Seq<Seq<char>>>| #[trigger]
        lists(cs, t) && changes == changes_listed(t, cs, cs.len() as int, query)
}

/// The checkpoint that closes segment `i`.
pub open spec fn closing(ms: Seq<Marker>, i: int) -> Option<(u64, String)> {
    if 0 <= i + 1 < ms.len() {
        match ms[i + 1] {
            Marker::Checkpoint { gen_id, name } => if gen_id > 0 {
                Some((gen_id, name))
            } else {
                None
            },
            Marker::Restore { .. } => None,
        }
    } else {
        None
    }
}

/// The positions of the live segments among the first `n` that lie in `start..end`.
pub open spec fn live_positions(ms: Seq<Marker>, n: int, start: int, end: int) -> Seq<int> {
    sift(
        Seq::new(n as nat, |i: int| i),
        n,
        |i: int| start <= i < end && survives(ms, 0, ms.len() as int, i),
    )
}

/// The block shows what a segment by itself stages.
pub open spec fn shows_segment(
    b: Block,
    segments: Seq<Segment>,
    ms: Seq<Marker>,
    i: int,
    query: Option<&str>,
) -> bool {
    &&& are_changes_of(
        change_views(b.changes@),
        after_segments(Map::empty(), seq![segments[i]]),
        query,
    )
    &&& b.label == closing(ms, i)
}

/// The blocks show the live segments in `start..end`, one after the other.
pub open spec fn are_blocks_of(
    bs: Seq<Block>,
    segments: Seq<Segment>,
    ms: Seq<Marker>,
    start: int,
    end: int,
    query: Option<&str>,
) -> bool {
    let ps = live_positions(ms, segments.len() as int, start, end);
    &&& bs.len() == ps.len()
    &&& forall|k: int|
        0 <= k < bs.len() ==> shows_segment(#[trigger] bs[k], segments, ms, ps[k], query)
}

/// What is shown of a staged entry.
fn show(d: &Dentry) -> (r: Shown)
    ensures
        r@ == shown_of(d@),
{
    match &d.target {
        Target::Inode(ino) => if d.in_base {
            Shown::Modified(*ino as u64)
        } else {
            Shown::Added(*ino as u64)
        },
        Target::Nothing => Shown::Deleted,
        Target::Path(Some(p)) => Shown::Renamed(p.clone()),
        Target::Path(None) => Shown::Deleted,
    }
}

/// The changes of a tree that are asked for.
pub fn changes_of(tree: &DirTree, query: Option<&str>) -> (r: Vec<(String, Shown)>)
    ensures
        are_changes_of(change_views(r@), tree@, query),
{
    let l = tree.for_each();
    let ghost t = tree@;
    let ghost cs = choose|cs: Seq<Seq<Seq<char>>>| #[trigger] lists(cs, t) && shows(l@, cs, t);
    let mut out: Vec<(String, Shown)> = Vec::new();
    let mut i: usize = 0;
    assert(change_views(out@) =~= changes_listed(t, cs, 0, query));
    while i < l.len()
        invariant
            i <= l@.len(),
            lists(cs, t),
            shows(l@, cs, t),
            change_views(out@) == changes_listed(t, cs, i as int, query),
        decreases l@.len() - i,
    {
        let ghost before = out@;
        assert(l@[i as int].0@ == rendered(cs[i as int]));
        let wanted: bool = match query {
            Some(q) => l[i].1.matches_path(l[i].0.as_str(), q),
            None => true,
        };
        if wanted {
            let path = l[i].0.clone();
            let shown = show(l[i].1);
            out.push((path, shown));
            assert(change_views(out@) =~= change_views(before).push((path@, shown@)));
        }
        i += 1;
    }
    assert(lists(cs, t));
    out
}

/// The changes of each live segment in `start..end`, with the checkpoint that closes it.
pub fn blocks_of(journal: Journal, start: usize, end: usize, query: Option<&str>) -> (r: Vec<Block>)
    requires
        journal.wf(),
    ensures
        are_blocks_of(
            r@,
            journal.segments@,
            journal.markers.0@,
            start as int,
            end as int,
            query,
        ),
{
    let ghost segments = journal.segments@;
    let ghost ms = journal.markers.0@;
    let ghost all = Seq::new(segments.len(), |i: int| i);
    let ghost keep = |i: int| start <= i < end && survives(ms, 0, ms.len() as int, i);
    let markers = journal.markers;
    let alive = journal.alive;
    let n: usize = alive.len();
    let mut out: Vec<Block> = Vec::new();
    let mut i: usize = 0;
    for seg in it: journal.segments
        invariant
            it.seq() == segments,
            i == it.index(),
            n == segments.len(),
            n == ms.len(),
            alive@.len() == n,
            ms == markers.0@,
            all == Seq::new(segments.len(), |i: int| i),
            keep == (|i: int| start <= i < end && survives(ms, 0, ms.len() as int, i)),
            forall|k: int|
                0 <= k < n ==> #[trigger] alive@[k] == survives(ms, 0, ms.len() as int, k),
            out@.len() == sift(all, i as int, keep).len(),
            forall|k: int|
                0 <= k < out@.len() ==> shows_segment(
                    #[trigger] out@[k],
                    segments,
                    ms,
                    sift(all, i as int, keep)[k],
                    query,
                ),
    {
        if start <= i && i < end && alive[i] {
            let mut one: Vec<Segment> = Vec::new();
            one.push(seg);
            assert(one@ =~= seq![segments[i as int]]);
            let tree = DirTree::build(one);
            let changes = changes_of(&tree, query);
            let label: Option<(u64, String)> = match markers.checkpoint_at(i + 1) {
                Some((g, name)) => Some((g, name.clone())),
                None => None,
            };
            let b = Block { changes, label };
            proof {
                assert(keep(i as int));
                assert(shows_segment(b, segments, ms, i as int, query));
            }
            out.push(b);
        }
        i += 1;
    }
    proof {
        assert(live_positions(ms, segments.len() as int, start as int, end as int) == sift(
            all,
            segments.len() as int,
            keep,
        ));
    }
    out
}

/// The error of a query says what went wrong with it.
pub open spec fn query_error(e: Error, m: SpanError) -> bool {
    match m {
        SpanError::NotFound(n) => match e {
            Error::MarkerNotFound(s) => s@ == (match number(n) {
                Some(g) => decimal(g as nat),
                None => n,
            }),
            _ => false,
        },
        SpanError::Reversed => e is FromAfterTo,
    }
}

/// The report is that on the segments of a query.
pub open spec fn is_report_on(
    r: Report,
    segments: Seq<Segment>,
    ms: Seq<Marker>,
    start: int,
    end: int,
    query: Option<&str>,
    layout: Layout,
    label: Seq<char>,
) -> bool {
    exists|bs: Seq<Block>| #[trigger]
        are_blocks_of(bs, segments, ms, start, end, query) && item_views(r.items@) == report_items(
            bs,
            layout,
            label,
        ) && r.has_changes == (change_count(bs, bs.len() as int) > 0)
}

fn run(
    journal: Journal,
    verbose: bool,
    at: Option<&str>,
    from: Option<&str>,
    to: Option<&str>,
    path: Option<&str>,
) -> (r: Result<Report, Error>)
    requires
        journal.wf(),
        at_in_range(journal.markers.0@, at),
    ensures
        match (r, span(journal.markers.0@, at, from, to, journal.segments@.len() as int)) {
            (Ok(rep), Ok((start, end))) => is_report_on(
                rep,
                journal.segments@,
                journal.markers.0@,
                start,
                end,
                path,
                Layout { verbose, filtered: path is Some, marks_unsaved: false },
                label_of(at, from, to),
            ),
            (Err(e), Err(m)) => query_error(e, m),
            _ => false,
        },
{
    let num: usize = journal.segments.len();
    let (start, end) = match journal.markers.segment_range(at, from, to, num) {
        Ok(p) => p,
        Err(e) => return Err(e),
    };
    let ghost segments = journal.segments@;
    let ghost ms = journal.markers.0@;
    let blocks = blocks_of(journal, start, end, path);
    let ghost bs = blocks@;
    let layout = Layout { verbose, filtered: path.is_some(), marks_unsaved: false };
    let rep = lay_out(blocks, layout, at, from, to);
    proof {
        assert(are_blocks_of(bs, segments, ms, start as int, end as int, path)
            && item_views(rep.items@) == report_items(bs, layout, label_of(at, from, to)));
    }
    Ok(rep)
}

/// The report on what is staged: a line for each change, and their number.
pub fn run_status(
    journal: Journal,
    at: Option<&str>,
    from: Option<&str>,
    to: Option<&str>,
) -> (r: Result<Report, Error>)
    requires
        journal.wf(),
        at_in_range(journal.markers.0@, at),
    ensures
        match (r, span(journal.markers.0@, at, from, to, journal.segments@.len() as int)) {
            (Ok(rep), Ok((start, end))) => is_report_on(
                rep,
                journal.segments@,
                journal.markers.0@,
                start,
                end,
                None,
                Layout { verbose: false, filtered: false, marks_unsaved: false },
                label_of(at, from, to),
            ),
            (Err(e), Err(m)) => query_error(e, m),
            _ => false,
        },
{
    run(journal, false, at, from, to, None)
}

/// The report on what is staged, to be shown with contents. A path narrows
/// it down to the changes that stand there or come from there.
pub fn run_diff(
    journal: Journal,
    at: Option<&str>,
    from: Option<&str>,
    to: Option<&str>,
    path: Option<&str>,
) -> (r: Result<Report, Error>)
    requires
        journal.wf(),
        at_in_range(journal.markers.0@, at),
    ensures
        match (r, span(journal.markers.0@, at, from, to, journal.segments@.len() as int)) {
            (Ok(rep), Ok((start, end))) => is_report_on(
                rep,
                journal.segments@,
                journal.markers.0@,
                start,
                end,
                path,
                Layout { verbose: true, filtered: path is Some, marks_unsaved: false },
                label_of(at, from, to),
            ),
            (Err(e), Err(m)) => query_error(e, m),
            _ => false,
        },
{
    run(journal, true, at, from, to, path)
}

} // verus!
