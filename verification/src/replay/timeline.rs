//! The timeline: every checkpoint and restore, with what restores left behind.
use super::liveness::{restores_go_back, survives};
use super::markers::Markers;
use super::segment::{is_marker, markers_of, SegmentedJournal};
use super::types::{RawJournal, Record};
use crate::events::{event_lines, event_lines_of, event_views, line_views, Event, EventView, Line};
use crate::sift::lemma_sift_positions;
use vstd::prelude::*;

verus! {

/// The marker as an event.
pub open spec fn event_of(r: Record) -> EventView {
    match r {
        Record::Checkpoint { gen_id, name } => EventView::Checkpoint(gen_id, name@),
        Record::Restore { gen_id, target_gen } => EventView::Restore(gen_id, target_gen),
        _ => EventView::Restore(0, 0),
    }
}

/// The markers as events.
pub open spec fn events_of(ms: Seq<Record>) -> Seq<EventView> {
    Seq::new(ms.len(), |i: int| event_of(ms[i]))
}

/// The markers as events.
fn to_events(markers: &Markers) -> (r: Vec<Event>)
    requires
        forall|i: int| 0 <= i < markers.0@.len() ==> is_marker(#[trigger] markers.0@[i]),
    ensures
        event_views(r@) == events_of(markers.0@),
{
    let ghost ms = markers.0@;
    let mut out: Vec<Event> = Vec::new();
    let mut i: usize = 0;
    assert(event_views(out@) =~= events_of(ms.take(0)));
    while i < markers.0.len()
        invariant
            i <= ms.len(),
            ms == markers.0@,
            forall|i: int| 0 <= i < ms.len() ==> is_marker(#[trigger] ms[i]),
            event_views(out@) == events_of(ms.take(i as int)),
        decreases ms.len() - i,
    {
        let ghost before = out@;
        assert(is_marker(ms[i as int]));
        match &markers.0[i] {
            Record::Checkpoint { gen_id, name } => {
                out.push(Event::Checkpoint { gen_id: *gen_id, name: name.clone() });
            },
            Record::Restore { gen_id, target_gen } => {
                out.push(Event::Restore { gen_id: *gen_id, target_gen: *target_gen });
            },
            _ => {},
        }
        proof {
            assert(event_views(out@) =~= event_views(before).push(event_of(ms[i as int])));
            assert(events_of(ms.take(i + 1)) =~= events_of(ms.take(i as int)).push(
                event_of(ms[i as int]),
            ));
        }
        i += 1;
    }
    assert(ms.take(ms.len() as int) =~= ms);
    out
}

/// The reachability of the segments that the markers cut.
pub open spec fn reachable_of(ms: Seq<Record>) -> Seq<bool> {
    Seq::new(ms.len() + 1, |i: int| survives(ms, 0, ms.len() as int, ms.len() as int + 1, i))
}

/// Lists the checkpoints and restores of a journal. One is reachable where the
/// segment that it closes is.
pub fn timeline(records: Vec<Record>) -> (r: Vec<Line>)
    requires
        restores_go_back(
            markers_of(records@),
            0,
            markers_of(records@).len() as int,
            markers_of(records@).len() as int + 1,
        ),
    ensures
        line_views(r@) == event_lines_of(
            events_of(markers_of(records@)),
            reachable_of(markers_of(records@)),
        ),
{
    let ghost s = records@;
    let journal = SegmentedJournal::new(RawJournal(records));
    let ghost ms = journal.markers.0@;
    proof {
        let pos = lemma_sift_positions(s, s.len() as int, |i: int| is_marker(s[i]));
        assert forall|i: int| 0 <= i < ms.len() implies is_marker(#[trigger] ms[i]) by {
            assert(ms[i] == s[pos[i]]);
        }
    }
    let events = to_events(&journal.markers);
    assert(event_views(events@).len() == events@.len());
    let alive = journal.markers.alive_segments(journal.segments.len());
    assert(alive@ =~= reachable_of(ms));
    event_lines(&events, &alive)
}

} // verus!
