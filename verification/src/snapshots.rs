//! Listing the checkpoints of the entry log with the changes between them.
use crate::diff::{span, span_views, Span, SpanView, Style};
use crate::entry_log::Record;
use crate::text::{decimal, plural, to_decimal};
use vstd::prelude::*;
use vstd::string::StringExecFns;

verus! {

/// A checkpoint with the number of entries recorded since the one before it.
#[derive(Debug)]
pub struct Snapshot {
    pub id: u64,
    pub name: String,
    pub changes: usize,
}

/// The checkpoints of a log, and the number of entries after the last.
#[derive(Debug)]
pub struct Snapshots {
    pub list: Vec<Snapshot>,
    pub trailing: usize,
}

/// A checkpoint with its number of entries, as a mathematical value.
pub struct SnapshotView {
    pub id: u64,
    pub name: Seq<char>,
    pub changes: nat,
}

impl View for Snapshot {
    type V = SnapshotView;

    open spec fn view(&self) -> SnapshotView {
        SnapshotView { id: self.id, name: self.name@, changes: self.changes as nat }
    }
}

/// The checkpoints as mathematical values.
pub open spec fn snapshot_views(s: Seq<Snapshot>) -> Seq<SnapshotView> {
    Seq::new(s.len(), |i: int| s[i]@)
}

/// The number of entries after the last checkpoint among the first `n` records.
pub open spec fn entries_since(s: Seq<Record>, n: int) -> nat
    decreases n,
{
    if n <= 0 {
        0
    } else {
        match s[n - 1] {
            Record::Entry { .. } => entries_since(s, n - 1) + 1,
            Record::Checkpoint { .. } => 0,
        }
    }
}

/// The checkpoints among the first `n` records.
pub open spec fn snapshots_among(s: Seq<Record>, n: int) -> Seq<SnapshotView>
    decreases n,
{
    if n <= 0 {
        Seq::empty()
    } else {
        match s[n - 1] {
            Record::Entry { .. } => snapshots_among(s, n - 1),
            Record::Checkpoint { id, name } => snapshots_among(s, n - 1).push(
                SnapshotView { id, name: name@, changes: entries_since(s, n - 1) },
            ),
        }
    }
}

/// Lists the checkpoints of a log.
pub fn list(records: &Vec<Record>) -> (r: Snapshots)
    ensures
        snapshot_views(r.list@) == snapshots_among(records@, records@.len() as int),
        r.trailing == entries_since(records@, records@.len() as int),
{
    let ghost s = records@;
    let mut list: Vec<Snapshot> = Vec::new();
    let mut trailing: usize = 0;
    let mut i: usize = 0;
    assert(snapshot_views(list@) =~= snapshots_among(s, 0));
    while i < records.len()
        invariant
            i <= s.len(),
            s == records@,
            trailing <= i,
            snapshot_views(list@) == snapshots_among(s, i as int),
            trailing == entries_since(s, i as int),
        decreases s.len() - i,
    {
        let ghost before = list@;
        match &records[i] {
            Record::Entry { .. } => {
                trailing += 1;
            },
            Record::Checkpoint { id, name } => {
                let e = Snapshot { id: *id, name: name.clone(), changes: trailing };
                list.push(e);
                assert(snapshot_views(list@) =~= snapshot_views(before).push(e@));
                trailing = 0;
            },
        }
        i += 1;
    }
    Snapshots { list, trailing }
}

/// A number of things in words.
pub open spec fn counted(open: Seq<char>, n: nat, noun: Seq<char>, close: Seq<char>) -> Seq<char> {
    open + decimal(n) + noun + (if n == 1 {
        ""@
    } else {
        "s"@
    }) + close
}

fn count_text(open: &str, n: usize, noun: &str, close: &str) -> (r: String)
    ensures
        r@ == counted(open@, n as nat, noun@, close@),
{
    let d = to_decimal(n as u64);
    open.to_owned().concat(d.as_str()).concat(noun).concat(plural(n)).concat(close)
}

/// The line that shows a checkpoint.
pub open spec fn snapshot_line_of(v: SnapshotView) -> Seq<SpanView> {
    seq![
        SpanView { text: "snapshot ["@ + decimal(v.id as nat) + "]"@, style: Style::CyanBold },
        SpanView { text: " "@, style: Style::Plain },
        SpanView { text: v.name, style: Style::Dimmed },
        SpanView { text: counted(" ("@, v.changes, " change"@, ")"@), style: Style::Plain },
    ]
}

/// The line that shows a checkpoint.
pub fn snapshot_line(v: &Snapshot) -> (r: Vec<Span>)
    ensures
        span_views(r@) == snapshot_line_of(v@),
{
    let d = to_decimal(v.id);
    let text = "snapshot [".to_owned().concat(d.as_str()).concat("]");
    let mut out: Vec<Span> = Vec::new();
    out.push(Span { text, style: Style::CyanBold });
    out.push(span(" ", Style::Plain));
    out.push(span(v.name.as_str(), Style::Dimmed));
    out.push(Span { text: count_text(" (", v.changes, " change", ")"), style: Style::Plain });
    assert(span_views(out@) =~= snapshot_line_of(v@));
    out
}

/// The line that shows the entries after the last checkpoint, if there are any.
pub fn trailing_line(trailing: usize) -> (r: Option<Vec<Span>>)
    ensures
        r is Some <==> trailing > 0,
        r matches Some(v) ==> span_views(v@) == seq![
            SpanView { text: "(current)"@, style: Style::Dimmed },
            SpanView {
                text: counted(
                    " ("@,
                    trailing as nat,
                    " uncommitted change"@,
                    " since last snapshot)"@,
                ),
                style: Style::Plain,
            },
        ],
{
    if trailing == 0 {
        return None;
    }
    let text = count_text(" (", trailing, " uncommitted change", " since last snapshot)");
    let mut out: Vec<Span> = Vec::new();
    out.push(span("(current)", Style::Dimmed));
    out.push(Span { text, style: Style::Plain });
    assert(span_views(out@) =~= seq![
        SpanView { text: "(current)"@, style: Style::Dimmed },
        SpanView {
            text: counted(
                " ("@,
                trailing as nat,
                " uncommitted change"@,
                " since last snapshot)"@,
            ),
            style: Style::Plain,
        },
    ]);
    Some(out)
}

} // verus!
