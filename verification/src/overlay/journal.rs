//! The journal of the overlay: segments and markers, with the liveness of
//! each segment.
use super::markers::{restores_go_back, survives, Markers};
use super::tree::{after_segments, DirTree};
use super::types::{Action, Marker, Record, Segment};
use crate::sift::{keep_flagged, lemma_sift_same, sift};
use vstd::prelude::*;

verus! {

// ── Segmentation ─────────────────────────────────────────────────────

/// A segment as a mathematical value.
pub struct SegmentView {
    pub from: u64,
    pub records: Seq<Action>,
}

impl View for Segment {
    type V = SegmentView;

    open spec fn view(&self) -> SegmentView {
        SegmentView { from: self.from, records: self.records@ }
    }
}

/// The segments as mathematical values.
pub open spec fn segment_views(s: Seq<Segment>) -> Seq<SegmentView> {
    Seq::new(s.len(), |i: int| s[i]@)
}

/// The markers among the first `n` records, in order.
pub open spec fn markers_among(s: Seq<Record>, n: int) -> Seq<Marker>
    decreases n,
{
    if n <= 0 {
        Seq::empty()
    } else {
        match s[n - 1] {
            Record::Marker(m) => markers_among(s, n - 1).push(m),
            Record::Action(_) => markers_among(s, n - 1),
        }
    }
}

/// What stands after the last marker among the first `n` records.
pub open spec fn open_segment(s: Seq<Record>, n: int) -> SegmentView
    decreases n,
{
    if n <= 0 {
        SegmentView { from: 0, records: Seq::empty() }
    } else {
        match s[n - 1] {
            Record::Marker(m) => SegmentView { from: m.builds_on(), records: Seq::empty() },
            Record::Action(a) => SegmentView {
                from: open_segment(s, n - 1).from,
                records: open_segment(s, n - 1).records.push(a),
            },
        }
    }
}

/// The segments that the markers among the first `n` records close.
pub open spec fn closed_segments(s: Seq<Record>, n: int) -> Seq<SegmentView>
    decreases n,
{
    if n <= 0 {
        Seq::empty()
    } else if s[n - 1] is Marker {
        closed_segments(s, n - 1).push(open_segment(s, n - 1))
    } else {
        closed_segments(s, n - 1)
    }
}

/// The segments of a record sequence: those that markers close, then the open one.
pub open spec fn segments_of(s: Seq<Record>) -> Seq<SegmentView> {
    closed_segments(s, s.len() as int).push(open_segment(s, s.len() as int))
}

/// The markers are the phantom of generation 0 and then those of the records.
pub open spec fn are_markers_of(ms: Seq<Marker>, s: Seq<Record>) -> bool {
    &&& ms.len() == markers_among(s, s.len() as int).len() + 1
    &&& ms[0] is Checkpoint
    &&& ms[0].generation() == 0
    &&& ms.skip(1) == markers_among(s, s.len() as int)
}

/// All segments and markers of a journal, with the liveness of each segment.
#[derive(Debug)]
pub struct Journal {
    pub segments: Vec<Segment>,
    pub markers: Markers,
    /// Whether each segment survives the restores.
    pub alive: Vec<bool>,
}

/// The live segments of a range, in order.
pub open spec fn live_between(segments: Seq<Segment>, ms: Seq<Marker>, start: int, end: int) -> Seq<
    Segment,
> {
    sift(
        segments,
        segments.len() as int,
        |i: int| start <= i < end && survives(ms, 0, ms.len() as int, i),
    )
}

/// The segments that are live at generation `g`: those before marker `g` that
/// survive the markers up to it.
pub open spec fn live_at(segments: Seq<Segment>, ms: Seq<Marker>, g: int) -> Seq<Segment> {
    sift(segments, segments.len() as int, |i: int| i < g && survives(ms, 0, g + 1, i))
}

impl Journal {
    /// There are as many segments as markers, and the liveness flags tell
    /// which segments survive.
    pub open spec fn wf(&self) -> bool {
        &&& self.segments@.len() == self.markers.0@.len()
        &&& self.alive@.len() == self.segments@.len()
        &&& forall|i: int|
            0 <= i < self.segments@.len() ==> #[trigger] self.alive@[i] == survives(
                self.markers.0@,
                0,
                self.markers.0@.len() as int,
                i,
            )
    }

    /// Cuts records at their markers.
    fn cut(records: Vec<Record>) -> (r: (Vec<Segment>, Vec<Marker>))
        ensures
            segment_views(r.0@) == segments_of(records@),
            are_markers_of(r.1@, records@),
            r.0@.len() == r.1@.len(),
    {
        let ghost s = records@;
        let mut segments: Vec<Segment> = Vec::new();
        let mut markers: Vec<Marker> = Vec::new();
        markers.push(Marker::Checkpoint { gen_id: 0, name: String::new() });
        let mut current: Vec<Action> = Vec::new();
        let mut from: u64 = 0;
        assert(markers@.skip(1) =~= Seq::<Marker>::empty());
        for record in it: records
            invariant
                it.seq() == s,
                from == open_segment(s, it.index() as int).from,
                current@ == open_segment(s, it.index() as int).records,
                segment_views(segments@) == closed_segments(s, it.index() as int),
                markers@.len() == segments@.len() + 1,
                markers@[0] is Checkpoint,
                markers@[0].generation() == 0,
                markers@.skip(1) == markers_among(s, it.index() as int),
        {
            let ghost k = it.index() as int;
            let ghost before = segments@;
            let ghost had = markers@;
            match record {
                Record::Marker(m) => {
                    segments.push(Segment { from, records: current });
                    proof {
                        assert(segment_views(segments@) =~= segment_views(before).push(
                            open_segment(s, k),
                        ));
                    }
                    current = Vec::new();
                    from = match &m {
                        Marker::Checkpoint { gen_id, .. } => *gen_id,
                        Marker::Restore { target_gen, .. } => *target_gen,
                    };
                    markers.push(m);
                    proof {
                        assert(markers@.skip(1) =~= had.skip(1).push(m));
                    }
                },
                Record::Action(a) => {
                    current.push(a);
                },
            }
        }
        let ghost before = segments@;
        segments.push(Segment { from, records: current });
        proof {
            assert(segment_views(segments@) =~= segment_views(before).push(
                open_segment(s, s.len() as int),
            ));
        }
        (segments, markers)
    }

    /// Builds the journal from parsed records.
    pub fn new(records: Vec<Record>) -> (r: Self)
        requires
            forall|ms: Seq<Marker>| #[trigger]
                are_markers_of(ms, records@) ==> restores_go_back(
                    ms,
                    0,
                    ms.len() as int,
                    ms.len() as int,
                ),
        ensures
            segment_views(r.segments@) == segments_of(records@),
            are_markers_of(r.markers.0@, records@),
            r.wf(),
    {
        let (segments, markers) = Journal::cut(records);
        let markers = Markers::new(markers);
        let alive = markers.alive_segments(segments.len());
        Journal { segments, markers, alive }
    }

    /// Builds the journal from parsed records, or `None` where a restore that
    /// takes effect does not go back.
    pub fn try_new(records: Vec<Record>) -> (r: Option<Self>)
        ensures
            match r {
                Some(j) => segment_views(j.segments@) == segments_of(records@) && are_markers_of(
                    j.markers.0@,
                    records@,
                ) && j.wf(),
                None => exists|ms: Seq<Marker>| #[trigger]
                    are_markers_of(ms, records@) && !restores_go_back(
                        ms,
                        0,
                        ms.len() as int,
                        ms.len() as int,
                    ),
            },
    {
        let (segments, markers) = Journal::cut(records);
        let markers = Markers::new(markers);
        if !markers.check_restores(0..markers.len(), segments.len()) {
            return None;
        }
        let alive = markers.alive_segments(segments.len());
        Some(Journal { segments, markers, alive })
    }

    /// Whether the segment at this index is live; `false` past the end.
    pub fn is_alive(&self, segment_index: usize) -> (r: bool)
        requires
            self.wf(),
        ensures
            r == (segment_index < self.segments@.len() && survives(
                self.markers.0@,
                0,
                self.markers.0@.len() as int,
                segment_index as int,
            )),
    {
        segment_index < self.alive.len() && self.alive[segment_index]
    }

    /// The live segments among `start..end`.
    pub fn into_live_segments_range(self, start: usize, end: usize) -> (r: Vec<Segment>)
        requires
            self.wf(),
        ensures
            r@ == live_between(self.segments@, self.markers.0@, start as int, end as int),
    {
        let ghost s = self.segments@;
        let ghost ms = self.markers.0@;
        let mut keep: Vec<bool> = Vec::new();
        let mut i: usize = 0;
        while i < self.alive.len()
            invariant
                i <= self.alive@.len(),
                keep@.len() == i,
                self.wf(),
                s == self.segments@,
                ms == self.markers.0@,
                forall|k: int|
                    0 <= k < i ==> #[trigger] keep@[k] == (start <= k < end && survives(
                        ms,
                        0,
                        ms.len() as int,
                        k,
                    )),
            decreases self.alive@.len() - i,
        {
            keep.push(start <= i && i < end && self.alive[i]);
            i += 1;
        }
        proof {
            lemma_sift_same(
                s,
                s.len() as int,
                |i: int| keep@[i],
                |i: int| start <= i < end && survives(ms, 0, ms.len() as int, i),
            );
        }
        keep_flagged(self.segments, &keep)
    }

    /// The tree of the live segments.
    pub fn into_tree(self) -> (r: DirTree)
        requires
            self.wf(),
        ensures
            r@ == after_segments(
                Map::empty(),
                live_between(
                    self.segments@,
                    self.markers.0@,
                    0,
                    self.segments@.len() as int,
                ),
            ),
    {
        let n: usize = self.segments.len();
        DirTree::build(self.into_live_segments_range(0, n))
    }

    /// The tree at a generation: that of the segments live there. A
    /// generation past the last marker means the whole journal.
    pub fn into_tree_at(self, gen_id: u64) -> (r: DirTree)
        requires
            self.wf(),
            gen_id < self.markers.0@.len() ==> restores_go_back(
                self.markers.0@,
                0,
                gen_id + 1,
                gen_id as int,
            ),
        ensures
            gen_id < self.markers.0@.len() ==> r@ == after_segments(
                Map::empty(),
                live_at(self.segments@, self.markers.0@, gen_id as int),
            ),
            gen_id >= self.markers.0@.len() ==> r@ == after_segments(
                Map::empty(),
                live_between(
                    self.segments@,
                    self.markers.0@,
                    0,
                    self.segments@.len() as int,
                ),
            ),
    {
        if gen_id >= self.markers.len() as u64 {
            return self.into_tree();
        }
        let g: usize = gen_id as usize;
        let ghost s = self.segments@;
        let ghost ms = self.markers.0@;
        let alive = self.markers.alive_segments_range(0..g + 1, g);
        let mut keep: Vec<bool> = Vec::new();
        let mut i: usize = 0;
        while i < self.segments.len()
            invariant
                i <= self.segments@.len(),
                keep@.len() == i,
                s == self.segments@,
                alive@.len() == g,
                forall|i: int|
                    0 <= i < g ==> #[trigger] alive@[i] == survives(ms, 0, g + 1, i),
                forall|k: int|
                    0 <= k < i ==> #[trigger] keep@[k] == (k < g && survives(ms, 0, g + 1, k)),
            decreases self.segments@.len() - i,
        {
            keep.push(i < g && alive[i]);
            i += 1;
        }
        proof {
            lemma_sift_same(
                s,
                s.len() as int,
                |i: int| keep@[i],
                |i: int| i < g as int && survives(ms, 0, g as int + 1, i),
            );
        }
        DirTree::build(keep_flagged(self.segments, &keep))
    }
}

// ── Laws ─────────────────────────────────────────────────────────────

/// The segments with what stands after a restore appended.
pub open spec fn and_then(segments: Seq<Segment>, after: Segment) -> Seq<Segment> {
    segments.push(after)
}

/// A restore to generation `g` gives back the tree that was there at `g`: once
/// the restore is the last marker, and nothing stands after it, the live
/// segments build the same tree.
pub proof fn law_restore_gives_tree_back(
    segments: Seq<Segment>,
    ms: Seq<Marker>,
    g: u64,
    after: Segment,
)
    requires
        super::markers::in_sequence(ms),
        segments.len() == ms.len(),
        g < ms.len() <= u64::MAX,
        after.records@.len() == 0,
    ensures
        after_segments(
            Map::empty(),
            live_between(
                and_then(segments, after),
                super::markers::restored(ms, g),
                0,
                segments.len() as int + 1,
            ),
        ) == after_segments(Map::empty(), live_at(segments, ms, g as int)),
{
    let all = and_then(segments, after);
    let r = super::markers::restored(ms, g);
    let n = segments.len() as int;
    let a = |i: int| 0 <= i < n + 1 && survives(r, 0, r.len() as int, i);
    let b = |i: int| i < g as int && survives(ms, 0, g as int + 1, i);
    assert forall|i: int| 0 <= i < n implies #[trigger] a(i) == b(i) by {
        super::markers::law_restore_gives_back(ms, g, i);
    }
    super::markers::law_last_segment_live(r);
    assert(a(n));
    lemma_sift_on_prefix(all, segments, n, a, b);
    let live = sift(segments, n, b);
    assert(sift(all, n + 1, a) == live.push(after));
    assert(live_between(all, r, 0, n + 1) == live.push(after)) by {
        lemma_sift_same(
            all,
            n + 1,
            |i: int| 0 <= i < n + 1 && survives(r, 0, r.len() as int, i),
            a,
        );
    }
    assert(live.push(after).drop_last() =~= live);
    assert(after.records@ =~= Seq::<Action>::empty());
}

proof fn lemma_sift_on_prefix(
    s: Seq<Segment>,
    t: Seq<Segment>,
    n: int,
    a: spec_fn(int) -> bool,
    b: spec_fn(int) -> bool,
)
    requires
        0 <= n <= s.len(),
        n <= t.len(),
        forall|i: int| 0 <= i < n ==> #[trigger] s[i] == t[i],
        forall|i: int| 0 <= i < n ==> #[trigger] a(i) == b(i),
    ensures
        sift(s, n, a) == sift(t, n, b),
    decreases n,
{
    if n > 0 {
        lemma_sift_on_prefix(s, t, n - 1, a, b);
        assert(a(n - 1) == b(n - 1));
    }
}

} // verus!
