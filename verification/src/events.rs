//! The checkpoints and restores of a journal, listed one to a line.
use crate::diff::{span, span_views, Span, SpanView, Style};
use crate::text::{decimal, to_decimal};
use vstd::prelude::*;
use vstd::string::StringExecFns;

verus! {

/// A checkpoint, or a restore of an earlier generation.
#[derive(Debug)]
pub enum Event {
    Checkpoint { gen_id: u64, name: String },
    Restore { gen_id: u64, target_gen: u64 },
}

/// An event as a mathematical value.
pub enum EventView {
    Checkpoint(u64, Seq<char>),
    Restore(u64, u64),
}

impl View for Event {
    type V = EventView;

    open spec fn view(&self) -> EventView {
        match self {
            Event::Checkpoint { gen_id, name } => EventView::Checkpoint(*gen_id, name@),
            Event::Restore { gen_id, target_gen } => EventView::Restore(*gen_id, *target_gen),
        }
    }
}

/// The events as mathematical values.
pub open spec fn event_views(s: Seq<Event>) -> Seq<EventView> {
    Seq::new(s.len(), |i: int| s[i]@)
}

/// A line of a listing, and whether what it shows is still reachable.
#[derive(Debug)]
pub struct Line {
    pub spans: Vec<Span>,
    pub reachable: bool,
}

/// A line as a mathematical value.
pub struct LineView {
    pub spans: Seq<SpanView>,
    pub reachable: bool,
}

impl View for Line {
    type V = LineView;

    open spec fn view(&self) -> LineView {
        LineView { spans: span_views(self.spans@), reachable: self.reachable }
    }
}

/// The lines as mathematical values.
pub open spec fn line_views(s: Seq<Line>) -> Seq<LineView> {
    Seq::new(s.len(), |i: int| s[i]@)
}

/// The name of the last checkpoint numbered `g` among the first `n` events.
pub open spec fn name_among(evs: Seq<EventView>, g: u64, n: int) -> Option<Seq<char>>
    decreases n,
{
    if n <= 0 {
        None
    } else {
        match evs[n - 1] {
            EventView::Checkpoint(id, name) => if id == g {
                Some(name)
            } else {
                name_among(evs, g, n - 1)
            },
            EventView::Restore(..) => name_among(evs, g, n - 1),
        }
    }
}

/// The name under which a restored generation is shown.
pub open spec fn target_name(evs: Seq<EventView>, g: u64) -> Seq<char> {
    match name_among(evs, g, evs.len() as int) {
        Some(name) => name,
        None => "(unknown)"@,
    }
}

/// The line that shows an event.
pub open spec fn event_line_of(evs: Seq<EventView>, e: EventView) -> Seq<SpanView> {
    let gap = SpanView { text: " "@, style: Style::Plain };
    match e {
        EventView::Checkpoint(g, name) => seq![
            SpanView { text: "checkpoint ["@ + decimal(g as nat) + "]"@, style: Style::CyanBold },
            gap,
            SpanView { text: name, style: Style::Dimmed },
        ],
        EventView::Restore(g, target) => seq![
            SpanView { text: "restore    ["@ + decimal(g as nat) + "]"@, style: Style::YellowBold },
            gap,
            SpanView {
                text: "restored to ["@ + decimal(target as nat) + "] "@ + target_name(evs, target),
                style: Style::Dimmed,
            },
        ],
    }
}

/// The name under which a restored generation is shown.
fn find_name(events: &Vec<Event>, g: u64) -> (r: String)
    ensures
        r@ == target_name(event_views(events@), g),
{
    let ghost evs = event_views(events@);
    let mut i: usize = events.len();
    while i > 0
        invariant
            i <= events@.len(),
            evs == event_views(events@),
            name_among(evs, g, i as int) == name_among(evs, g, evs.len() as int),
        decreases i,
    {
        i -= 1;
        assert(evs[i as int] == events@[i as int]@);
        if let Event::Checkpoint { gen_id, name } = &events[i] {
            if *gen_id == g {
                return name.clone();
            }
        }
    }
    "(unknown)".to_owned()
}

/// A word, a gap and a generation in brackets.
fn numbered(word: &str, g: u64, style: Style) -> (r: Span)
    ensures
        r@ == (SpanView { text: word@ + decimal(g as nat) + "]"@, style }),
{
    let d = to_decimal(g);
    Span { text: word.to_owned().concat(d.as_str()).concat("]"), style }
}

/// The line that shows an event. A restore is shown with the name of the
/// checkpoint that it goes back to.
pub fn event_line(events: &Vec<Event>, e: &Event) -> (r: Vec<Span>)
    ensures
        span_views(r@) == event_line_of(event_views(events@), e@),
{
    let mut out: Vec<Span> = Vec::new();
    match e {
        Event::Checkpoint { gen_id, name } => {
            out.push(numbered("checkpoint [", *gen_id, Style::CyanBold));
            out.push(span(" ", Style::Plain));
            out.push(span(name.as_str(), Style::Dimmed));
        },
        Event::Restore { gen_id, target_gen } => {
            let name = find_name(events, *target_gen);
            let d = to_decimal(*target_gen);
            let text = "restored to [".to_owned().concat(d.as_str()).concat("] ").concat(
                name.as_str(),
            );
            out.push(numbered("restore    [", *gen_id, Style::YellowBold));
            out.push(span(" ", Style::Plain));
            out.push(Span { text, style: Style::Dimmed });
        },
    }
    assert(span_views(out@) =~= event_line_of(event_views(events@), e@));
    out
}

/// The lines that show all events, each with its reachability.
pub open spec fn event_lines_of(evs: Seq<EventView>, reachable: Seq<bool>) -> Seq<LineView> {
    Seq::new(
        evs.len(),
        |i: int| LineView { spans: event_line_of(evs, evs[i]), reachable: reachable[i] },
    )
}

/// Lists all events, each with its reachability.
pub fn event_lines(events: &Vec<Event>, reachable: &Vec<bool>) -> (r: Vec<Line>)
    requires
        events@.len() <= reachable@.len(),
    ensures
        line_views(r@) == event_lines_of(event_views(events@), reachable@),
{
    let mut out: Vec<Line> = Vec::new();
    let ghost want = event_lines_of(event_views(events@), reachable@);
    let mut i: usize = 0;
    while i < events.len()
        invariant
            i <= events@.len() <= reachable@.len(),
            want == event_lines_of(event_views(events@), reachable@),
            line_views(out@) == want.take(i as int),
        decreases events@.len() - i,
    {
        let ghost before = out@;
        let spans = event_line(events, &events[i]);
        out.push(Line { spans, reachable: reachable[i] });
        proof {
            assert(line_views(out@) =~= line_views(before).push(want[i as int]));
            assert(want.take(i + 1) =~= want.take(i as int).push(want[i as int]));
        }
        i += 1;
    }
    assert(want.take(want.len() as int) =~= want);
    out
}

} // verus!
