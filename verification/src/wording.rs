//! What the lines that are shown say, and that they leave nothing out.
use crate::diff::{
    change_of, headline_of, line_mark, plain_text, printed, unified_lines, LineTag, ShownView,
    SpanView,
};
use crate::entry_log;
use crate::events::{event_line_of, event_lines_of, name_among, target_name, EventView};
use crate::overlay::audit::{action_line, action_lines, audit_lines, marker_line};
use crate::overlay::markers::survives;
use crate::overlay::types::{Action, Marker, Segment};
use crate::record_log::checkpoints::events_among;
use crate::record_log::types::Record;
use crate::snapshots::{entries_since, snapshot_line_of, snapshots_among, SnapshotView};
use crate::text::decimal;
use vstd::prelude::*;

verus! {

proof fn lemma_plain_push(s: Seq<SpanView>, x: SpanView)
    ensures
        plain_text(s.push(x)) == plain_text(s) + x.text,
{
    assert(s.push(x).drop_last() =~= s);
}

/// The text of a few pieces.
proof fn lemma_plain(s: Seq<SpanView>)
    ensures
        s.len() == 2 ==> plain_text(s) == s[0].text + s[1].text,
        s.len() == 3 ==> plain_text(s) == s[0].text + s[1].text + s[2].text,
        s.len() == 4 ==> plain_text(s) == s[0].text + s[1].text + s[2].text + s[3].text,
        s.len() == 5 ==> plain_text(s) == s[0].text + s[1].text + s[2].text + s[3].text + s[4].text,
{
    reveal_with_fuel(plain_text, 7);
    if 2 <= s.len() <= 5 {
        let e = Seq::<char>::empty();
        assert(e + s[0].text =~= s[0].text);
        assert(s.drop_last().drop_last() =~= s.take(s.len() - 2));
    }
}

// ── Changes ──────────────────────────────────────────────────────────

/// A change is announced by its path and by what has become of it; a rename
/// names where it comes from first.
pub proof fn law_headline_reads(path: Seq<char>, ino: u64, from: Seq<char>)
    ensures
        plain_text(headline_of(path, ShownView::Added(ino))) == path + " "@ + "(added)"@,
        plain_text(headline_of(path, ShownView::Modified(ino))) == path + " "@ + "(modified)"@,
        plain_text(headline_of(path, ShownView::Deleted)) == path + " "@ + "(deleted)"@,
        plain_text(headline_of(path, ShownView::Renamed(from))) == from + " → "@ + path + " "@
            + "(renamed)"@,
{
    lemma_plain(headline_of(path, ShownView::Added(ino)));
    lemma_plain(headline_of(path, ShownView::Modified(ino)));
    lemma_plain(headline_of(path, ShownView::Deleted));
    lemma_plain(headline_of(path, ShownView::Renamed(from)));
}

/// Contents are shown only where they are asked for: without that a change is
/// shown alike whatever they are. An addition reads like a change from nothing,
/// a deletion like one to nothing, and a modification that changes nothing is
/// not shown.
pub proof fn law_contents_are_shown_on_request(
    path: Seq<char>,
    shown: ShownView,
    a: Seq<char>,
    b: Seq<char>,
    c: Seq<char>,
    d: Seq<char>,
    ino: u64,
)
    ensures
        change_of(path, shown, a, b, false) == change_of(path, shown, c, d, false),
        change_of(path, ShownView::Modified(ino), a, a, true).len() == 0,
        a != b ==> change_of(path, ShownView::Modified(ino), a, b, true) == headline_of(
            path,
            ShownView::Modified(ino),
        ).push(change_of(path, ShownView::Modified(ino), a, b, false).last()) + diff_text(a, b),
        change_of(path, ShownView::Added(ino), a, b, true) == headline_of(
            path,
            ShownView::Added(ino),
        ).push(change_of(path, shown, a, b, false).last()) + diff_text(""@, b),
        change_of(path, ShownView::Deleted, a, b, true) == headline_of(
            path,
            ShownView::Deleted,
        ).push(change_of(path, shown, a, b, false).last()) + diff_text(a, ""@),
        change_of(path, ShownView::Renamed(c), a, b, true) == change_of(
            path,
            ShownView::Renamed(c),
            a,
            b,
            false,
        ),
        change_of(path, shown, a, b, false).last().text == "\n"@,
{
}

/// The lines of a difference as they are printed.
pub open spec fn diff_text(a: Seq<char>, b: Seq<char>) -> Seq<SpanView> {
    printed(unified_lines(a, b, 3), unified_lines(a, b, 3).len() as int)
}

/// The text that is printed for the lines of a difference.
pub open spec fn marked(lines: Seq<(LineTag, Seq<char>, bool)>, n: int) -> Seq<char>
    decreases n,
{
    if n <= 0 {
        Seq::empty()
    } else {
        let (tag, text, missing) = lines[n - 1];
        let mark = match tag {
            LineTag::Deleted => '-',
            LineTag::Inserted => '+',
            LineTag::Unchanged => ' ',
        };
        let line = marked(lines, n - 1) + (seq![mark] + text);
        if missing {
            line + seq!['\n']
        } else {
            line
        }
    }
}

/// A line that is gone is printed after a minus, one that is new after a plus
/// and one that stays after a blank, each with a line end.
pub proof fn law_lines_are_marked(lines: Seq<(LineTag, Seq<char>, bool)>, n: int)
    requires
        0 <= n <= lines.len(),
    ensures
        plain_text(printed(lines, n)) == marked(lines, n),
    decreases n,
{
    if n > 0 {
        law_lines_are_marked(lines, n - 1);
        let (tag, text, missing) = lines[n - 1];
        let (mark, style) = line_mark(tag);
        let line = SpanView { text: mark + text, style };
        lemma_plain_push(printed(lines, n - 1), line);
        reveal_strlit("-");
        reveal_strlit("+");
        reveal_strlit(" ");
        reveal_strlit("\n");
        assert("-"@ =~= seq!['-'] && "+"@ =~= seq!['+'] && " "@ =~= seq![' ']);
        assert("\n"@ =~= seq!['\n']);
        if missing {
            lemma_plain_push(
                printed(lines, n - 1).push(line),
                SpanView { text: "\n"@, style: crate::diff::Style::Plain },
            );
        }
    }
}

// ── Events ───────────────────────────────────────────────────────────

/// A checkpoint is shown with its number and name, and a restore with its
/// number and with the number and the name of what it goes back to.
pub proof fn law_event_reads(evs: Seq<EventView>, g: u64, target: u64, name: Seq<char>)
    ensures
        plain_text(event_line_of(evs, EventView::Checkpoint(g, name))) == "checkpoint ["@ + decimal(
            g as nat,
        ) + "]"@ + " "@ + name,
        plain_text(event_line_of(evs, EventView::Restore(g, target))) == "restore    ["@ + decimal(
            g as nat,
        ) + "]"@ + " "@ + ("restored to ["@ + decimal(target as nat) + "] "@ + target_name(
            evs,
            target,
        )),
{
    lemma_plain(event_line_of(evs, EventView::Checkpoint(g, name)));
    lemma_plain(event_line_of(evs, EventView::Restore(g, target)));
}

/// Every event has a line of its own, in order, with its reachability.
pub proof fn law_events_have_lines(evs: Seq<EventView>, reachable: Seq<bool>, i: int)
    requires
        0 <= i < evs.len(),
    ensures
        event_lines_of(evs, reachable).len() == evs.len(),
        event_lines_of(evs, reachable)[i].spans == event_line_of(evs, evs[i]),
        event_lines_of(evs, reachable)[i].reachable == reachable[i],
{
}

/// A restored generation goes by the name of the last checkpoint with its
/// number; where there is none, its name is unknown.
pub proof fn law_target_is_named(evs: Seq<EventView>, g: u64, n: int)
    requires
        0 <= n <= evs.len(),
    ensures
        match name_among(evs, g, n) {
            Some(name) => exists|i: int|
                0 <= i < n && #[trigger] evs[i] == EventView::Checkpoint(g, name) && forall|j: int|
                    i < j < n ==> !is_checkpoint(#[trigger] evs[j], g),
            None => forall|j: int| 0 <= j < n ==> !is_checkpoint(#[trigger] evs[j], g),
        },
    decreases n,
{
    if n > 0 {
        law_target_is_named(evs, g, n - 1);
        if is_checkpoint(evs[n - 1], g) {
            assert(evs[n - 1] == EventView::Checkpoint(g, name_among(evs, g, n)->0));
        } else if let Some(name) = name_among(evs, g, n - 1) {
            let i = choose|i: int|
                0 <= i < n - 1 && #[trigger] evs[i] == EventView::Checkpoint(g, name) && forall|
                    j: int,
                | i < j < n - 1 ==> !is_checkpoint(#[trigger] evs[j], g);
            assert(evs[i] == EventView::Checkpoint(g, name));
        }
    }
}

/// The event is the checkpoint with this number.
pub open spec fn is_checkpoint(e: EventView, g: u64) -> bool {
    match e {
        EventView::Checkpoint(id, _) => id == g,
        EventView::Restore(..) => false,
    }
}

/// The record is shown as this event.
pub open spec fn is_event_of(e: EventView, r: Record) -> bool {
    match r {
        Record::Checkpoint(c) => e == EventView::Checkpoint(c.gen_id, c.name@),
        Record::Restore { gen_id, target_gen } => e == EventView::Restore(gen_id, target_gen),
        _ => false,
    }
}

/// Every checkpoint and every restore of a log is listed, in the order of the
/// log, and nothing else is.
pub proof fn law_events_are_listed(s: Seq<Record>, n: int) -> (pos: Seq<int>)
    requires
        0 <= n <= s.len(),
    ensures
        pos.len() == events_among(s, n).len(),
        forall|k: int|
            0 <= k < pos.len() ==> 0 <= (#[trigger] pos[k]) < n && is_event_of(
                events_among(s, n)[k],
                s[pos[k]],
            ),
        forall|j: int, k: int| 0 <= j < k < pos.len() ==> (#[trigger] pos[j]) < (#[trigger] pos[k]),
        forall|i: int|
            0 <= i < n && ((#[trigger] s[i]) is Checkpoint || s[i] is Restore) ==> pos.contains(i),
    decreases n,
{
    if n == 0 {
        Seq::empty()
    } else {
        let before = law_events_are_listed(s, n - 1);
        if s[n - 1] is Checkpoint || s[n - 1] is Restore {
            let pos = before.push(n - 1);
            assert forall|i: int|
                0 <= i < n && ((#[trigger] s[i]) is Checkpoint || s[i] is Restore) implies pos.contains(
            i) by {
                if i < n - 1 {
                    let k = choose|k: int| 0 <= k < before.len() && before[k] == i;
                    assert(pos[k] == i);
                } else {
                    assert(pos[before.len() as int] == i);
                }
            }
            pos
        } else {
            before
        }
    }
}

// ── Snapshots ────────────────────────────────────────────────────────

/// The changes of the checkpoints listed, taken together.
pub open spec fn changes_listed(v: Seq<SnapshotView>) -> nat
    decreases v.len(),
{
    if v.len() == 0 {
        0
    } else {
        changes_listed(v.drop_last()) + v.last().changes
    }
}

/// The number of entries among the first `n` records.
pub open spec fn entry_count(s: Seq<entry_log::Record>, n: int) -> nat
    decreases n,
{
    if n <= 0 {
        0
    } else if s[n - 1] is Entry {
        entry_count(s, n - 1) + 1
    } else {
        entry_count(s, n - 1)
    }
}

/// Every entry of a log is counted once: for the checkpoint after it, or after
/// the last one. Each checkpoint is listed with its number and name.
pub proof fn law_snapshots_count_entries(s: Seq<entry_log::Record>, n: int)
    requires
        0 <= n <= s.len(),
    ensures
        changes_listed(snapshots_among(s, n)) + entries_since(s, n) == entry_count(s, n),
        snapshots_among(s, n).len() + entry_count(s, n) == n,
        n > 0 && s[n - 1] is Checkpoint ==> snapshots_among(s, n).len() > 0 && snapshots_among(
            s,
            n,
        ).last().id == s[n - 1]->Checkpoint_id && snapshots_among(s, n).last().name == s[n
            - 1]->Checkpoint_name@ && entries_since(s, n) == 0,
    decreases n,
{
    if n > 0 {
        law_snapshots_count_entries(s, n - 1);
        let (a, b) = (snapshots_among(s, n - 1), snapshots_among(s, n));
        if s[n - 1] is Checkpoint {
            assert(b.drop_last() =~= a);
        }
    }
}

/// A snapshot is shown with its number, its name and the number of its changes.
pub proof fn law_snapshot_reads(v: SnapshotView)
    ensures
        plain_text(snapshot_line_of(v)) == "snapshot ["@ + decimal(v.id as nat) + "]"@ + " "@
            + v.name + (" ("@ + decimal(v.changes) + " change"@ + (if v.changes == 1 {
            ""@
        } else {
            "s"@
        }) + ")"@),
{
    lemma_plain(snapshot_line_of(v));
}

// ── The audit trail ──────────────────────────────────────────────────

/// An action is shown by what it does, what it does it to and, where it
/// stages something, by its inode.
pub proof fn law_action_reads(a: Action)
    ensures
        plain_text(action_line(a)) == match a {
            Action::Add { path, ino, .. } => "added     "@ + (" "@ + path@ + "  (ino "@ + decimal(
                ino as nat,
            ) + ")"@),
            Action::Modify { path, ino, .. } => "modified  "@ + (" "@ + path@ + "  (ino "@
                + decimal(ino as nat) + ")"@),
            Action::Delete { path, .. } => "deleted   "@ + (" "@ + path@),
            Action::Rename { src, dst, .. } => "renamed   "@ + (" "@ + src@ + " → "@ + dst@),
            Action::Replace { src, dst, .. } => "replaced  "@ + (" "@ + src@ + " → "@ + dst@),
        },
{
    lemma_plain(action_line(a));
}

/// A marker is shown by its number, and by its name or by where it goes back to.
pub proof fn law_marker_reads(m: Marker)
    ensures
        plain_text(marker_line(m)) == match m {
            Marker::Checkpoint { gen_id, name } => "["@ + decimal(gen_id as nat) + "]"@ + (" "@
                + name@),
            Marker::Restore { gen_id, target_gen } => "["@ + decimal(gen_id as nat) + "]"@ + (
            " restored to ["@ + decimal(target_gen as nat) + "]"@),
        },
{
    lemma_plain(marker_line(m));
}

/// The number of actions in the first `n` segments that involve the path, or
/// of all of them where no path is asked for.
pub open spec fn actions_about(segments: Seq<Segment>, n: int, filter: Option<&str>) -> nat
    decreases n,
{
    if n <= 0 {
        0
    } else {
        actions_about(segments, n - 1, filter) + about_among(
            segments[n - 1].records@,
            segments[n - 1].records@.len() as int,
            filter,
        )
    }
}

/// The same of the first `n` actions of a segment.
pub open spec fn about_among(s: Seq<Action>, n: int, filter: Option<&str>) -> nat
    decreases n,
{
    if n <= 0 {
        0
    } else {
        let before = about_among(s, n - 1, filter);
        if involves(s[n - 1], filter) {
            before + 1
        } else {
            before
        }
    }
}

/// The action is about the path, as its path or as an end of a move.
pub open spec fn involves(a: Action, filter: Option<&str>) -> bool {
    match filter {
        None => true,
        Some(p) => match a {
            Action::Add { path, .. } => path@ == p@,
            Action::Modify { path, .. } => path@ == p@,
            Action::Delete { path, .. } => path@ == p@,
            Action::Rename { src, dst, .. } => src@ == p@ || dst@ == p@,
            Action::Replace { src, dst, .. } => src@ == p@ || dst@ == p@,
        },
    }
}

proof fn lemma_action_lines(s: Seq<Action>, n: int, filter: Option<&str>, reachable: bool)
    requires
        0 <= n <= s.len(),
    ensures
        action_lines(s, n, filter, reachable).len() == about_among(s, n, filter),
        forall|k: int|
            0 <= k < action_lines(s, n, filter, reachable).len() ==> (#[trigger] action_lines(
                s,
                n,
                filter,
                reachable,
            )[k]).reachable == reachable,
    decreases n,
{
    if n > 0 {
        lemma_action_lines(s, n - 1, filter, reachable);
    }
}

/// The audit trail leaves nothing out: it has a line for each marker but that
/// of generation 0, and one for each action that is asked for. The lines of a
/// segment say whether restores have left it.
pub proof fn law_audit_is_complete(
    segments: Seq<Segment>,
    ms: Seq<Marker>,
    n: int,
    filter: Option<&str>,
)
    requires
        0 <= n <= segments.len(),
        segments.len() == ms.len(),
    ensures
        audit_lines(segments, ms, n, filter).len() == actions_about(segments, n, filter) + if n
            < ms.len() {
            n
        } else if n > 0 {
            n - 1
        } else {
            0
        },
        n > 0 ==> forall|k: int|
            audit_lines(segments, ms, n - 1, filter).len() <= k < audit_lines(
                segments,
                ms,
                n,
                filter,
            ).len() ==> (#[trigger] audit_lines(segments, ms, n, filter)[k]).reachable == survives(
                ms,
                0,
                ms.len() as int,
                n - 1,
            ),
    decreases n,
{
    if n > 0 {
        law_audit_is_complete(segments, ms, n - 1, filter);
        let records = segments[n - 1].records@;
        let reachable = survives(ms, 0, ms.len() as int, n - 1);
        lemma_action_lines(records, records.len() as int, filter, reachable);
        let a = audit_lines(segments, ms, n - 1, filter);
        let b = action_lines(records, records.len() as int, filter, reachable);
        let c = audit_lines(segments, ms, n, filter);
        assert forall|k: int| a.len() <= k < c.len() implies (#[trigger] c[k]).reachable
            == reachable by {
            if k < a.len() + b.len() {
                assert(c[k] == b[k - a.len()]);
            }
        }
    }
}

} // verus!
