//! The audit trail: every action and marker, with what restores left behind.
use super::journal::Journal;
use super::markers::survives;
use super::types::{Action, Marker, Segment};
use crate::diff::{span, span_views, Span, SpanView, Style};
use crate::events::{line_views, Line, LineView};
use crate::text::{decimal, same, to_decimal};
use vstd::prelude::*;
use vstd::string::StringExecFns;

verus! {

/// True when an action is about the path, as its path or as an end of a move.
pub fn action_matches_path(action: &Action, filter: &str) -> (r: bool)
    ensures
        r == action.is_about(filter@),
{
    match action {
        Action::Add { path, .. } => same(path.as_str(), filter),
        Action::Modify { path, .. } => same(path.as_str(), filter),
        Action::Delete { path, .. } => same(path.as_str(), filter),
        Action::Rename { src, dst, .. } => same(src.as_str(), filter) || same(
            dst.as_str(),
            filter,
        ),
        Action::Replace { src, dst, .. } => same(src.as_str(), filter) || same(
            dst.as_str(),
            filter,
        ),
    }
}

/// The line that shows a marker.
pub open spec fn marker_line(m: Marker) -> Seq<SpanView> {
    match m {
        Marker::Checkpoint { gen_id, name } => seq![
            SpanView { text: "["@ + decimal(gen_id as nat) + "]"@, style: Style::CyanBold },
            SpanView { text: " "@ + name@, style: Style::Plain },
        ],
        Marker::Restore { gen_id, target_gen } => seq![
            SpanView { text: "["@ + decimal(gen_id as nat) + "]"@, style: Style::YellowBold },
            SpanView {
                text: " restored to ["@ + decimal(target_gen as nat) + "]"@,
                style: Style::Plain,
            },
        ],
    }
}

/// A generation in brackets.
fn bracketed(g: u64) -> (r: String)
    ensures
        r@ == "["@ + decimal(g as nat) + "]"@,
{
    let d = to_decimal(g);
    "[".to_owned().concat(d.as_str()).concat("]")
}

/// The line that shows a marker.
pub fn format_marker(marker: &Marker) -> (r: Vec<Span>)
    ensures
        span_views(r@) == marker_line(*marker),
{
    let mut out: Vec<Span> = Vec::new();
    match marker {
        Marker::Checkpoint { gen_id, name } => {
            out.push(Span { text: bracketed(*gen_id), style: Style::CyanBold });
            out.push(Span { text: " ".to_owned().concat(name.as_str()), style: Style::Plain });
        },
        Marker::Restore { gen_id, target_gen } => {
            let d = to_decimal(*target_gen);
            let text = " restored to [".to_owned().concat(d.as_str()).concat("]");
            out.push(Span { text: bracketed(*gen_id), style: Style::YellowBold });
            out.push(Span { text, style: Style::Plain });
        },
    }
    assert(span_views(out@) =~= marker_line(*marker));
    out
}

/// What follows the verb of an action with a staged inode.
pub open spec fn with_inode(path: Seq<char>, ino: u32) -> Seq<char> {
    " "@ + path + "  (ino "@ + decimal(ino as nat) + ")"@
}

/// What follows the verb of a move.
pub open spec fn with_ends(src: Seq<char>, dst: Seq<char>) -> Seq<char> {
    " "@ + src + " → "@ + dst
}

/// The line that shows an action: its verb, ten columns wide, and what it is about.
pub open spec fn action_line(a: Action) -> Seq<SpanView> {
    let (verb, style, rest) = match a {
        Action::Add { path, ino, .. } => ("added     "@, Style::Green, with_inode(path@, ino)),
        Action::Modify { path, ino, .. } => ("modified  "@, Style::Blue, with_inode(path@, ino)),
        Action::Delete { path, .. } => ("deleted   "@, Style::Red, " "@ + path@),
        Action::Rename { src, dst, .. } => ("renamed   "@, Style::Magenta, with_ends(src@, dst@)),
        Action::Replace { src, dst, .. } => ("replaced  "@, Style::Magenta, with_ends(src@, dst@)),
    };
    seq![SpanView { text: verb, style }, SpanView { text: rest, style: Style::Plain }]
}

fn inode_text(path: &str, ino: u32) -> (r: String)
    ensures
        r@ == with_inode(path@, ino),
{
    let d = to_decimal(ino as u64);
    " ".to_owned().concat(path).concat("  (ino ").concat(d.as_str()).concat(")")
}

fn ends_text(src: &str, dst: &str) -> (r: String)
    ensures
        r@ == with_ends(src@, dst@),
{
    " ".to_owned().concat(src).concat(" → ").concat(dst)
}

/// The line that shows an action.
pub fn format_action(action: &Action) -> (r: Vec<Span>)
    ensures
        span_views(r@) == action_line(*action),
{
    let (verb, style, rest) = match action {
        Action::Add { path, ino, .. } => (
            "added     ",
            Style::Green,
            inode_text(path.as_str(), *ino),
        ),
        Action::Modify { path, ino, .. } => (
            "modified  ",
            Style::Blue,
            inode_text(path.as_str(), *ino),
        ),
        Action::Delete { path, .. } => (
            "deleted   ",
            Style::Red,
            " ".to_owned().concat(path.as_str()),
        ),
        Action::Rename { src, dst, .. } => (
            "renamed   ",
            Style::Magenta,
            ends_text(src.as_str(), dst.as_str()),
        ),
        Action::Replace { src, dst, .. } => (
            "replaced  ",
            Style::Magenta,
            ends_text(src.as_str(), dst.as_str()),
        ),
    };
    let mut out: Vec<Span> = Vec::new();
    out.push(span(verb, style));
    out.push(Span { text: rest, style: Style::Plain });
    assert(span_views(out@) =~= action_line(*action));
    out
}

/// True when an action is asked for: all are where no path is.
pub open spec fn asked_for(a: Action, filter: Option<&str>) -> bool {
    match filter {
        Some(p) => a.is_about(p@),
        None => true,
    }
}

/// The lines for those of the first `n` actions that are asked for.
pub open spec fn action_lines(
    s: Seq<Action>,
    n: int,
    filter: Option<&str>,
    reachable: bool,
) -> Seq<LineView>
    decreases n,
{
    if n <= 0 {
        Seq::empty()
    } else {
        let before = action_lines(s, n - 1, filter, reachable);
        if asked_for(s[n - 1], filter) {
            before.push(LineView { spans: action_line(s[n - 1]), reachable })
        } else {
            before
        }
    }
}

/// The lines for the first `n` segments. Each segment is followed by the
/// marker that closes it.
pub open spec fn audit_lines(
    segments: Seq<Segment>,
    ms: Seq<Marker>,
    n: int,
    filter: Option<&str>,
) -> Seq<LineView>
    decreases n,
{
    if n <= 0 {
        Seq::empty()
    } else {
        let reachable = survives(ms, 0, ms.len() as int, n - 1);
        let records = segments[n - 1].records@;
        let lines = audit_lines(segments, ms, n - 1, filter) + action_lines(
            records,
            records.len() as int,
            filter,
            reachable,
        );
        if n < ms.len() {
            lines.push(LineView { spans: marker_line(ms[n]), reachable })
        } else {
            lines
        }
    }
}

/// True when there is nothing in the journal: no action, and no marker but
/// that of generation 0.
pub open spec fn nothing_recorded(segments: Seq<Segment>, ms: Seq<Marker>) -> bool {
    ms.len() <= 1 && forall|i: int|
        0 <= i < segments.len() ==> (#[trigger] segments[i]).records@.len() == 0
}

/// Adds the lines of a segment.
fn add_actions(out: &mut Vec<Line>, records: &Vec<Action>, filter: Option<&str>, reachable: bool)
    ensures
        line_views(final(out)@) == line_views(old(out)@) + action_lines(
            records@,
            records@.len() as int,
            filter,
            reachable,
        ),
{
    let ghost start = line_views(out@);
    let ghost s = records@;
    let mut i: usize = 0;
    assert(line_views(out@) =~= start + action_lines(s, 0, filter, reachable));
    while i < records.len()
        invariant
            i <= s.len(),
            s == records@,
            line_views(out@) == start + action_lines(s, i as int, filter, reachable),
        decreases s.len() - i,
    {
        let ghost before = out@;
        let wanted: bool = match filter {
            Some(p) => action_matches_path(&records[i], p),
            None => true,
        };
        if wanted {
            let line = Line { spans: format_action(&records[i]), reachable };
            out.push(line);
            proof {
                let l = LineView { spans: action_line(s[i as int]), reachable };
                let had = action_lines(s, i as int, filter, reachable);
                assert(line_views(out@) =~= line_views(before).push(l));
                assert((start + had).push(l) =~= start + had.push(l));
            }
        }
        i += 1;
    }
}

/// Lists all that the journal records, or what it records of a path; nothing
/// where it is empty.
pub fn audit(journal: &Journal, filter: Option<&str>) -> (r: Option<Vec<Line>>)
    requires
        journal.wf(),
    ensures
        r is None <==> nothing_recorded(journal.segments@, journal.markers.0@),
        r matches Some(v) ==> line_views(v@) == audit_lines(
            journal.segments@,
            journal.markers.0@,
            journal.segments@.len() as int,
            filter,
        ),
{
    let ghost segments = journal.segments@;
    let ghost ms = journal.markers.0@;
    let n: usize = journal.segments.len();
    let mut empty: bool = true;
    let mut i: usize = 0;
    while i < n
        invariant
            i <= n,
            n == segments.len(),
            segments == journal.segments@,
            empty == (forall|k: int|
                0 <= k < i ==> (#[trigger] segments[k]).records@.len() == 0),
        decreases n - i,
    {
        if journal.segments[i].records.len() > 0 {
            assert(segments[i as int].records@.len() != 0);
            empty = false;
        }
        i += 1;
    }
    if empty && journal.markers.len() <= 1 {
        return None;
    }
    let mut out: Vec<Line> = Vec::new();
    let mut i: usize = 0;
    assert(line_views(out@) =~= audit_lines(segments, ms, 0, filter));
    while i < n
        invariant
            i <= n,
            journal.wf(),
            n == segments.len(),
            segments == journal.segments@,
            ms == journal.markers.0@,
            line_views(out@) == audit_lines(segments, ms, i as int, filter),
        decreases n - i,
    {
        let reachable: bool = journal.is_alive(i);
        add_actions(&mut out, &journal.segments[i].records, filter, reachable);
        let ghost before = out@;
        if let Some(marker) = journal.markers.get(i + 1) {
            out.push(Line { spans: format_marker(marker), reachable });
            assert(line_views(out@) =~= line_views(before).push(
                LineView { spans: marker_line(ms[i + 1]), reachable },
            ));
        }
        i += 1;
    }
    Some(out)
}

} // verus!
