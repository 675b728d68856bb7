//! Segmentation: a record stream is cut at checkpoints and restores. Each
//! segment holds data records only; checkpoints and restores become markers.
use super::markers::Markers;
use super::types::{RawJournal, Record, Segment};
use vstd::prelude::*;

verus! {

/// A segment as a mathematical value.
pub struct SegmentView {
    pub from: u64,
    pub records: Seq<Record>,
}

impl View for Segment {
    type V = SegmentView;

    open spec fn view(&self) -> SegmentView {
        SegmentView { from: self.from, records: self.records@ }
    }
}

/// The segments as mathematical values.
pub open spec fn segment_views(s: Seq<Segment>) -> Seq<SegmentView> {
    Seq::new(s.len(), |i: int| s[i]@)
}

/// True for checkpoints and restores.
pub open spec fn is_marker(r: Record) -> bool {
    r is Checkpoint || r is Restore
}

/// The generation that the segment after a marker builds on.
pub open spec fn builds_on(r: Record) -> u64 {
    match r {
        Record::Checkpoint { gen_id, .. } => gen_id,
        Record::Restore { target_gen, .. } => target_gen,
        _ => 0,
    }
}

/// The markers of a record sequence, in order.
pub open spec fn markers_of(s: Seq<Record>) -> Seq<Record> {
    crate::sift::sift(s, s.len() as int, |i: int| is_marker(s[i]))
}

/// The data records of a record sequence, in order.
pub open spec fn data_of(s: Seq<Record>) -> Seq<Record> {
    crate::sift::sift(s, s.len() as int, |i: int| !is_marker(s[i]))
}

/// What stands after the last of the first `n` records' markers.
pub open spec fn open_segment(s: Seq<Record>, n: int) -> SegmentView
    decreases n,
{
    if n <= 0 {
        SegmentView { from: 0, records: Seq::empty() }
    } else if is_marker(s[n - 1]) {
        SegmentView { from: builds_on(s[n - 1]), records: Seq::empty() }
    } else {
        SegmentView {
            from: open_segment(s, n - 1).from,
            records: open_segment(s, n - 1).records.push(s[n - 1]),
        }
    }
}

/// The segments that the markers among the first `n` records close.
pub open spec fn closed_segments(s: Seq<Record>, n: int) -> Seq<SegmentView>
    decreases n,
{
    if n <= 0 {
        Seq::empty()
    } else if is_marker(s[n - 1]) {
        closed_segments(s, n - 1).push(open_segment(s, n - 1))
    } else {
        closed_segments(s, n - 1)
    }
}

/// The segments of a record sequence: those that markers close, then the open one.
pub open spec fn segments_of(s: Seq<Record>) -> Seq<SegmentView> {
    closed_segments(s, s.len() as int).push(open_segment(s, s.len() as int))
}

/// The records of a sequence of segments, one after the other.
pub open spec fn records_of(s: Seq<SegmentView>) -> Seq<Record>
    decreases s.len(),
{
    if s.len() == 0 {
        Seq::empty()
    } else {
        records_of(s.drop_last()) + s.last().records
    }
}

/// All segments of a journal with its markers.
#[derive(Debug)]
pub struct SegmentedJournal {
    pub segments: Vec<Segment>,
    pub markers: Markers,
}

impl SegmentedJournal {
    /// Cuts a journal at its checkpoints and restores. There is always one
    /// segment more than there are markers.
    pub fn new(journal: RawJournal) -> (r: Self)
        ensures
            segment_views(r.segments@) == segments_of(journal.0@),
            r.markers.0@ == markers_of(journal.0@),
            r.segments@.len() == r.markers.0@.len() + 1,
    {
        let ghost s = journal.0@;
        let ghost keep = |i: int| is_marker(s[i]);
        let mut segments: Vec<Segment> = Vec::new();
        let mut markers: Vec<Record> = Vec::new();
        let mut records: Vec<Record> = Vec::new();
        let mut from: u64 = 0;
        for record in it: journal.0
            invariant
                it.seq() == s,
                keep == (|i: int| is_marker(s[i])),
                from == open_segment(s, it.index() as int).from,
                records@ == open_segment(s, it.index() as int).records,
                segment_views(segments@) == closed_segments(s, it.index() as int),
                markers@ == crate::sift::sift(s, it.index() as int, keep),
                segments@.len() == markers@.len(),
        {
            let ghost k = it.index() as int;
            let ghost before = segments@;
            let next: Option<u64> = match &record {
                Record::Checkpoint { gen_id, .. } => Some(*gen_id),
                Record::Restore { target_gen, .. } => Some(*target_gen),
                _ => None,
            };
            match next {
                Some(g) => {
                    segments.push(Segment { from, records });
                    proof {
                        assert(segment_views(segments@) =~= segment_views(before).push(
                            open_segment(s, k),
                        ));
                    }
                    records = Vec::new();
                    from = g;
                    markers.push(record);
                },
                None => {
                    records.push(record);
                },
            }
        }
        let ghost before = segments@;
        segments.push(Segment { from, records });
        proof {
            assert(segment_views(segments@) =~= segment_views(before).push(
                open_segment(s, s.len() as int),
            ));
        }
        SegmentedJournal { segments, markers: Markers(markers) }
    }
}

proof fn lemma_segments_complete(s: Seq<Record>, n: int)
    requires
        0 <= n <= s.len(),
    ensures
        records_of(closed_segments(s, n)) + open_segment(s, n).records == crate::sift::sift(
            s,
            n,
            |i: int| !is_marker(s[i]),
        ),
    decreases n,
{
    if n > 0 {
        lemma_segments_complete(s, n - 1);
        let closed = closed_segments(s, n - 1);
        let last = open_segment(s, n - 1);
        if is_marker(s[n - 1]) {
            assert(closed.push(last).drop_last() =~= closed);
            assert(records_of(closed.push(last)) == records_of(closed) + last.records);
            assert(records_of(closed.push(last)) + Seq::<Record>::empty() =~= records_of(
                closed.push(last),
            ));
        } else {
            assert(records_of(closed) + last.records.push(s[n - 1]) =~= (records_of(closed)
                + last.records).push(s[n - 1]));
        }
    } else {
        assert(records_of(closed_segments(s, n)) + open_segment(s, n).records =~= Seq::<
            Record,
        >::empty());
    }
}

/// Segmentation loses no data record and keeps their order.
pub proof fn law_segments_complete(s: Seq<Record>)
    ensures
        records_of(segments_of(s)) == data_of(s),
{
    let n = s.len() as int;
    lemma_segments_complete(s, n);
    let closed = closed_segments(s, n);
    assert(closed.push(open_segment(s, n)).drop_last() =~= closed);
}

/// There is one segment more than there are markers.
pub proof fn law_segment_count(s: Seq<Record>)
    ensures
        segments_of(s).len() == markers_of(s).len() + 1,
{
    lemma_segment_count(s, s.len() as int);
}

proof fn lemma_segment_count(s: Seq<Record>, n: int)
    ensures
        closed_segments(s, n).len() == crate::sift::sift(
            s,
            n,
            |i: int| is_marker(s[i]),
        ).len(),
    decreases n,
{
    if n > 0 {
        lemma_segment_count(s, n - 1);
    }
}

} // verus!
