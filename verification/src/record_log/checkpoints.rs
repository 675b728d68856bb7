//! Listing the checkpoints and restores of the record log.
use super::types::Record;
use crate::events::{event_lines, event_lines_of, event_views, line_views, Event, EventView, Line};
use crate::sift::flags;
use vstd::prelude::*;

verus! {

/// The checkpoints and restores among the first `n` records.
pub open spec fn events_among(s: Seq<Record>, n: int) -> Seq<EventView>
    decreases n,
{
    if n <= 0 {
        Seq::empty()
    } else {
        match s[n - 1] {
            Record::Checkpoint(c) => events_among(s, n - 1).push(
                EventView::Checkpoint(c.gen_id, c.name@),
            ),
            Record::Restore { gen_id, target_gen } => events_among(s, n - 1).push(
                EventView::Restore(gen_id, target_gen),
            ),
            _ => events_among(s, n - 1),
        }
    }
}

/// Lists all checkpoints and restores, those that restores left behind too.
pub fn list(records: &Vec<Record>) -> (r: Vec<Line>)
    ensures
        line_views(r@) == event_lines_of(
            events_among(records@, records@.len() as int),
            Seq::new(events_among(records@, records@.len() as int).len(), |i: int| true),
        ),
{
    let ghost s = records@;
    let mut events: Vec<Event> = Vec::new();
    let mut i: usize = 0;
    assert(event_views(events@) =~= events_among(s, 0));
    while i < records.len()
        invariant
            i <= s.len(),
            s == records@,
            event_views(events@) == events_among(s, i as int),
        decreases s.len() - i,
    {
        let ghost before = events@;
        match &records[i] {
            Record::Checkpoint(c) => {
                let e = Event::Checkpoint { gen_id: c.gen_id, name: c.name.clone() };
                events.push(e);
                assert(event_views(events@) =~= event_views(before).push(e@));
            },
            Record::Restore { gen_id, target_gen } => {
                let e = Event::Restore { gen_id: *gen_id, target_gen: *target_gen };
                events.push(e);
                assert(event_views(events@) =~= event_views(before).push(e@));
            },
            _ => {},
        }
        i += 1;
    }
    let all = flags(events.len(), true);
    assert(event_views(events@).len() == events@.len());
    assert(all@ =~= Seq::new(events@.len(), |i: int| true));
    event_lines(&events, &all)
}

} // verus!
