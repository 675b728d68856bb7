//! The journal with its liveness worked out once.
use super::liveness::{live_of, live_prefix_of, restores_go_back, survives};
use super::markers::Markers;
use super::segment::{markers_of, segment_views, segments_of, SegmentedJournal};
use super::types::{RawJournal, Record, Segment};
use crate::sift::{lemma_sift_same, sift};
use vstd::prelude::*;

verus! {

/// All segments and markers of a journal, with the liveness of each segment.
#[derive(Debug)]
pub struct Journal {
    pub segments: Vec<Segment>,
    pub markers: Markers,
    /// Whether each segment survives the restores.
    pub alive: Vec<bool>,
}

/// The references point at the elements of `s`, in order.
pub open spec fn refer_to(refs: Seq<&Segment>, s: Seq<Segment>) -> bool {
    &&& refs.len() == s.len()
    &&& forall|k: int| 0 <= k < s.len() ==> *(#[trigger] refs[k]) == s[k]
}

/// The segments at which flags are set, by reference.
fn pick<'a>(segments: &'a Vec<Segment>, n: usize, alive: &Vec<bool>) -> (r: Vec<&'a Segment>)
    requires
        n <= segments@.len(),
        n <= alive@.len(),
    ensures
        refer_to(r@, sift(segments@, n as int, |i: int| alive@[i])),
{
    let ghost keep = |i: int| alive@[i];
    let mut r: Vec<&Segment> = Vec::new();
    let mut i: usize = 0;
    while i < n
        invariant
            i <= n <= segments@.len(),
            n <= alive@.len(),
            keep == (|i: int| alive@[i]),
            refer_to(r@, sift(segments@, i as int, keep)),
        decreases n - i,
    {
        if alive[i] {
            r.push(&segments[i]);
        }
        i += 1;
    }
    r
}

impl Journal {
    /// The liveness flags tell which segments survive.
    pub open spec fn wf(&self) -> bool {
        &&& self.alive@.len() == self.segments@.len()
        &&& forall|i: int|
            0 <= i < self.segments@.len() ==> #[trigger] self.alive@[i] == survives(
                self.markers.0@,
                0,
                self.markers.0@.len() as int,
                self.segments@.len() as int,
                i,
            )
    }

    /// Builds the journal from parsed records.
    pub fn new(records: Vec<Record>) -> (r: Self)
        requires
            restores_go_back(
                markers_of(records@),
                0,
                markers_of(records@).len() as int,
                markers_of(records@).len() as int + 1,
            ),
        ensures
            segment_views(r.segments@) == segments_of(records@),
            r.markers.0@ == markers_of(records@),
            r.segments@.len() == r.markers.0@.len() + 1,
            r.wf(),
    {
        let cut = SegmentedJournal::new(RawJournal(records));
        let alive = cut.markers.alive_segments(cut.segments.len());
        Journal { segments: cut.segments, markers: cut.markers, alive }
    }

    /// All live segments.
    pub fn live_segments(&self) -> (r: Vec<&Segment>)
        requires
            self.wf(),
        ensures
            refer_to(r@, live_of(self.segments@, self.markers.0@)),
    {
        proof {
            let (s, ms) = (self.segments@, self.markers.0@);
            lemma_sift_same(
                s,
                s.len() as int,
                |i: int| self.alive@[i],
                |i: int| survives(ms, 0, ms.len() as int, s.len() as int, i),
            );
        }
        pick(&self.segments, self.segments.len(), &self.alive)
    }

    /// The segments that are live at a generation: restores after it do not
    /// affect them. A generation past the last marker means the whole journal.
    pub fn live_segments_at(&self, gen_id: u64) -> (r: Vec<&Segment>)
        requires
            self.wf(),
            gen_id <= self.markers.0@.len() ==> restores_go_back(
                self.markers.0@,
                0,
                gen_id as int,
                gen_id as int,
            ),
        ensures
            gen_id <= self.markers.0@.len() ==> refer_to(
                r@,
                live_prefix_of(self.segments@, self.markers.0@, gen_id as int),
            ),
            gen_id > self.markers.0@.len() ==> refer_to(
                r@,
                live_of(self.segments@, self.markers.0@),
            ),
    {
        if gen_id > self.markers.len() as u64 {
            return self.live_segments();
        }
        let n: usize = gen_id as usize;
        let alive = self.markers.alive_segments_range(0..n, n);
        let m: usize = if n <= self.segments.len() {
            n
        } else {
            self.segments.len()
        };
        proof {
            let (s, ms) = (self.segments@, self.markers.0@);
            lemma_sift_same(
                s,
                m as int,
                |i: int| alive@[i],
                |i: int| survives(ms, 0, n as int, n as int, i),
            );
        }
        pick(&self.segments, m, &alive)
    }

    /// Whether the segment at this index is live; `false` past the end.
    pub fn is_alive(&self, segment_index: usize) -> (r: bool)
        requires
            self.wf(),
        ensures
            r == (segment_index < self.segments@.len() && survives(
                self.markers.0@,
                0,
                self.markers.0@.len() as int,
                self.segments@.len() as int,
                segment_index as int,
            )),
    {
        if segment_index < self.alive.len() {
            self.alive[segment_index]
        } else {
            false
        }
    }
}

} // verus!
