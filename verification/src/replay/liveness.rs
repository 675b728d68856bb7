//! Liveness: which segments survive restores. A restore to a checkpoint
//! kills the segments between that checkpoint and itself.
use super::markers::{at_in_range, closing, lookup, span, Markers};
use super::segment::SegmentedJournal;
use super::types::{LiveSegments, Record, Segment};
use crate::error::{reports, Error};
use crate::sift::{flags, keep_flagged, lemma_sift_same, sift};
use vstd::prelude::*;

verus! {

/// The last checkpoint of generation `g` among the markers `lo..hi`.
pub open spec fn checkpoint_in(ms: Seq<Record>, lo: int, hi: int, g: u64) -> Option<int>
    decreases hi - lo,
{
    if hi <= lo {
        None
    } else {
        match ms[hi - 1] {
            Record::Checkpoint { gen_id, .. } => if gen_id == g {
                Some(hi - 1)
            } else {
                checkpoint_in(ms, lo, hi - 1, g)
            },
            _ => checkpoint_in(ms, lo, hi - 1, g),
        }
    }
}

/// The end of the segments that are still live once the restores from `j` on
/// have been honoured, latest first. A restore beyond that end is itself
/// undone, and one to a checkpoint that is not there is ignored.
pub open spec fn live_end(ms: Seq<Record>, lo: int, hi: int, j: int, num: int) -> int
    decreases hi - j,
{
    if j >= hi {
        num
    } else {
        let end = live_end(ms, lo, hi, j + 1, num);
        match ms[j] {
            Record::Restore { target_gen, .. } => match checkpoint_in(ms, lo, hi, target_gen) {
                Some(k) => if j + 1 < end {
                    k + 1
                } else {
                    end
                },
                None => end,
            },
            _ => end,
        }
    }
}

/// The checkpoint to which marker `j` takes the journal back, where it is a
/// restore that takes effect.
pub open spec fn restores_to(ms: Seq<Record>, lo: int, hi: int, j: int, num: int) -> Option<int> {
    match ms[j] {
        Record::Restore { target_gen, .. } => if j + 1 < live_end(ms, lo, hi, j + 1, num) {
            checkpoint_in(ms, lo, hi, target_gen)
        } else {
            None
        },
        _ => None,
    }
}

/// True when the restore at `j` takes effect and kills segment `i`.
pub open spec fn kills(ms: Seq<Record>, lo: int, hi: int, j: int, num: int, i: int) -> bool {
    match restores_to(ms, lo, hi, j, num) {
        Some(k) => k + 1 <= i <= j,
        None => false,
    }
}

/// True when one of the markers `from..hi` kills segment `i`.
pub open spec fn killed_from(
    ms: Seq<Record>,
    lo: int,
    hi: int,
    from: int,
    num: int,
    i: int,
) -> bool {
    exists|j: int| from <= j < hi && #[trigger] kills(ms, lo, hi, j, num, i)
}

/// True when segment `i` of `num` survives the restores among the markers `lo..hi`.
pub open spec fn survives(ms: Seq<Record>, lo: int, hi: int, num: int, i: int) -> bool {
    !killed_from(ms, lo, hi, lo, num, i)
}

/// Every restore that takes effect goes back to an earlier checkpoint.
pub open spec fn restores_go_back(ms: Seq<Record>, lo: int, hi: int, num: int) -> bool {
    forall|j: int|
        lo <= j < hi ==> match #[trigger] restores_to(ms, lo, hi, j, num) {
            Some(k) => k < j,
            None => true,
        }
}

/// The markers carry the generations 1, 2, 3 and so on, and each restore
/// goes back to a lower generation than its own, as the kernel writes them.
pub open spec fn in_sequence(ms: Seq<Record>) -> bool {
    forall|i: int|
        0 <= i < ms.len() ==> match #[trigger] ms[i] {
            Record::Checkpoint { gen_id, .. } => gen_id == i + 1,
            Record::Restore { gen_id, target_gen } => gen_id == i + 1 && target_gen <= i,
            _ => false,
        }
}

proof fn lemma_checkpoint_in(ms: Seq<Record>, lo: int, hi: int, g: u64)
    ensures
        match checkpoint_in(ms, lo, hi, g) {
            Some(k) => lo <= k < hi && ms[k] is Checkpoint && ms[k]->Checkpoint_gen_id == g,
            None => true,
        },
    decreases hi - lo,
{
    if hi > lo {
        lemma_checkpoint_in(ms, lo, hi - 1, g);
    }
}

proof fn lemma_live_end(ms: Seq<Record>, lo: int, hi: int, j: int, num: int)
    requires
        restores_go_back(ms, lo, hi, num),
        0 <= lo <= j <= hi,
        0 <= num,
    ensures
        0 <= live_end(ms, lo, hi, j, num) <= num,
    decreases hi - j,
{
    if j < hi {
        lemma_live_end(ms, lo, hi, j + 1, num);
        match ms[j] {
            Record::Restore { target_gen, .. } => {
                lemma_checkpoint_in(ms, lo, hi, target_gen);
                assert(match restores_to(ms, lo, hi, j, num) {
                    Some(k) => k < j,
                    None => true,
                });
            },
            _ => {},
        }
    }
}

/// In a journal as the kernel writes it, restores go back.
pub proof fn law_sequence_goes_back(ms: Seq<Record>, lo: int, hi: int, num: int)
    requires
        in_sequence(ms),
        0 <= lo <= hi <= ms.len(),
    ensures
        restores_go_back(ms, lo, hi, num),
{
    assert forall|j: int| lo <= j < hi implies match #[trigger] restores_to(ms, lo, hi, j, num) {
        Some(k) => k < j,
        None => true,
    } by {
        match ms[j] {
            Record::Restore { target_gen, .. } => {
                lemma_checkpoint_in(ms, lo, hi, target_gen);
                match checkpoint_in(ms, lo, hi, target_gen) {
                    Some(k) => {
                        assert(ms[k] is Checkpoint);
                    },
                    None => {},
                }
            },
            _ => {},
        }
    }
}

/// Without restores every segment is live.
pub proof fn law_no_restore_all_live(ms: Seq<Record>, lo: int, hi: int, num: int, i: int)
    requires
        0 <= lo <= hi <= ms.len(),
        forall|j: int| lo <= j < hi ==> !((#[trigger] ms[j]) is Restore),
    ensures
        survives(ms, lo, hi, num, i),
{
    assert forall|j: int| lo <= j < hi implies !#[trigger] kills(ms, lo, hi, j, num, i) by {
        assert(!(ms[j] is Restore));
    }
}

/// The segment after the last marker is always live.
pub proof fn law_last_segment_live(ms: Seq<Record>, num: int)
    requires
        num == ms.len() + 1,
    ensures
        survives(ms, 0, ms.len() as int, num, num - 1),
{
    assert forall|j: int| 0 <= j < ms.len() implies !#[trigger] kills(
        ms,
        0,
        ms.len() as int,
        j,
        num,
        num - 1,
    ) by {}
}

proof fn lemma_in_sequence(ms: Seq<Record>, hi: int, g: u64)
    requires
        in_sequence(ms),
        0 <= hi <= ms.len(),
    ensures
        checkpoint_in(ms, 0, hi, g) == (if 1 <= g <= hi && ms[g - 1] is Checkpoint {
            Some(g - 1)
        } else {
            None::<int>
        }),
    decreases hi,
{
    if hi > 0 {
        assert(ms[hi - 1] is Checkpoint || ms[hi - 1] is Restore);
        lemma_in_sequence(ms, hi - 1, g);
    }
}

/// The journal `ms` with a restore to generation `g` appended.
pub open spec fn restored(ms: Seq<Record>, g: u64) -> Seq<Record> {
    ms.push(Record::Restore { gen_id: (ms.len() + 1) as u64, target_gen: g })
}

/// From the restore back to its checkpoint nothing takes effect, and before
/// it what takes effect in the prefix does.
proof fn lemma_restored(ms: Seq<Record>, g: u64, j: int)
    requires
        in_sequence(ms),
        1 <= g <= ms.len() < u64::MAX,
        ms[g - 1] is Checkpoint,
        0 <= j <= ms.len(),
    ensures
        ({
            let r = restored(ms, g);
            let n = r.len() as int;
            &&& in_sequence(r)
            &&& j >= g - 1 ==> live_end(r, 0, n, j, n + 1) == g
            &&& g - 1 <= j < n - 1 ==> restores_to(r, 0, n, j, n + 1) is None
            &&& j <= g - 1 ==> live_end(r, 0, n, j, n + 1) == live_end(ms, 0, g as int, j, g as int)
            &&& j < g - 1 ==> restores_to(r, 0, n, j, n + 1) == restores_to(
                ms,
                0,
                g as int,
                j,
                g as int,
            )
        }),
    decreases ms.len() - j,
{
    let r = restored(ms, g);
    let n = r.len() as int;
    assert(in_sequence(r)) by {
        assert forall|i: int| 0 <= i < r.len() implies match #[trigger] r[i] {
            Record::Checkpoint { gen_id, .. } => gen_id == i + 1,
            Record::Restore { gen_id, target_gen } => gen_id == i + 1 && target_gen <= i,
            _ => false,
        } by {
            if i < ms.len() {
                assert(r[i] == ms[i]);
            }
        }
    }
    if j == ms.len() {
        lemma_in_sequence(r, n, g);
        assert(r[g - 1] == ms[g - 1]);
        assert(live_end(r, 0, n, n, n + 1) == n + 1);
        if j == g - 1 {
            assert(false);
        }
    } else {
        lemma_restored(ms, g, j + 1);
        assert(r[j] == ms[j]);
        match ms[j] {
            Record::Restore { target_gen, .. } => {
                lemma_in_sequence(r, n, target_gen);
                lemma_in_sequence(ms, g as int, target_gen);
                if 1 <= target_gen <= ms.len() {
                    assert(r[target_gen - 1] == ms[target_gen - 1]);
                }
            },
            _ => {},
        }
        assert(live_end(ms, 0, g as int, g as int, g as int) == g);
    }
}

/// A restore to the checkpoint of generation `g` gives back what was live
/// there: of the segments up to the checkpoint those survive that were live at
/// it, and of the segments from there to the restore none does.
pub proof fn law_restore_gives_back(ms: Seq<Record>, g: u64, i: int)
    requires
        in_sequence(ms),
        1 <= g <= ms.len() < u64::MAX,
        ms[g - 1] is Checkpoint,
        0 <= i <= ms.len(),
    ensures
        survives(restored(ms, g), 0, ms.len() as int + 1, ms.len() as int + 2, i) == (i < g
            && survives(ms, 0, g as int, g as int, i)),
{
    let r = restored(ms, g);
    let n = r.len() as int;
    lemma_restored(ms, g, ms.len() as int);
    lemma_in_sequence(r, n, g);
    assert(r[g - 1] == ms[g - 1]);
    assert(live_end(r, 0, n, n, n + 1) == n + 1);
    assert(restores_to(r, 0, n, n - 1, n + 1) == Some(g - 1));
    if i >= g {
        assert(kills(r, 0, n, n - 1, n + 1, i));
    } else {
        if killed_from(r, 0, n, 0, n + 1, i) {
            let j = choose|j: int| 0 <= j < n && #[trigger] kills(r, 0, n, j, n + 1, i);
            if j < n - 1 {
                lemma_restored(ms, g, j);
                assert(kills(ms, 0, g as int, j, g as int, i));
            }
        }
        if killed_from(ms, 0, g as int, 0, g as int, i) {
            let j = choose|j: int| 0 <= j < g && #[trigger] kills(ms, 0, g as int, j, g as int, i);
            lemma_restored(ms, g, j);
            assert(live_end(ms, 0, g as int, g as int, g as int) == g);
            assert(kills(r, 0, n, j, n + 1, i));
        }
    }
}

impl Markers {
    /// The position of the last checkpoint of generation `g` among the markers `lo..hi`.
    fn checkpoint_index(&self, lo: usize, hi: usize, g: u64) -> (r: Option<usize>)
        requires
            lo <= hi <= self.0@.len(),
        ensures
            match r {
                Some(k) => checkpoint_in(self.0@, lo as int, hi as int, g) == Some(k as int),
                None => checkpoint_in(self.0@, lo as int, hi as int, g) is None,
            },
    {
        let mut i: usize = hi;
        while i > lo
            invariant
                lo <= i <= hi <= self.0@.len(),
                checkpoint_in(self.0@, lo as int, hi as int, g) == checkpoint_in(
                    self.0@,
                    lo as int,
                    i as int,
                    g,
                ),
            decreases i,
        {
            i -= 1;
            if let Record::Checkpoint { gen_id, .. } = &self.0[i] {
                if *gen_id == g {
                    return Some(i);
                }
            }
        }
        None
    }

    /// The liveness of all segments.
    pub fn alive_segments(&self, num_segments: usize) -> (r: Vec<bool>)
        requires
            num_segments == 0 || restores_go_back(
                self.0@,
                0,
                self.0@.len() as int,
                num_segments as int,
            ),
        ensures
            r@.len() == num_segments,
            forall|i: int|
                0 <= i < num_segments ==> #[trigger] r@[i] == survives(
                    self.0@,
                    0,
                    self.0@.len() as int,
                    num_segments as int,
                    i,
                ),
    {
        self.alive_segments_range(0..self.0.len(), num_segments)
    }

    /// The liveness of segments, by the markers in `range` alone.
    pub fn alive_segments_range(
        &self,
        range: std::ops::Range<usize>,
        num_segments: usize,
    ) -> (r: Vec<bool>)
        requires
            num_segments == 0 || range.start >= range.end || (range.end <= self.0@.len()
                && restores_go_back(
                self.0@,
                range.start as int,
                range.end as int,
                num_segments as int,
            )),
        ensures
            r@.len() == num_segments,
            forall|i: int|
                0 <= i < num_segments ==> #[trigger] r@[i] == survives(
                    self.0@,
                    range.start as int,
                    range.end as int,
                    num_segments as int,
                    i,
                ),
    {
        let lo: usize = range.start;
        let hi: usize = range.end;
        let ghost ms = self.0@;
        let ghost num = num_segments as int;
        let mut alive: Vec<bool> = flags(num_segments, true);
        if num_segments == 0 || lo >= hi {
            return alive;
        }
        let mut alive_end: usize = num_segments;
        let mut j: usize = hi;
        while j > lo
            invariant
                lo <= j <= hi <= ms.len(),
                ms == self.0@,
                num == num_segments,
                restores_go_back(ms, lo as int, hi as int, num),
                alive@.len() == num,
                alive_end == live_end(ms, lo as int, hi as int, j as int, num),
                alive_end <= num,
                forall|i: int|
                    0 <= i < num ==> #[trigger] alive@[i] == !killed_from(
                        ms,
                        lo as int,
                        hi as int,
                        j as int,
                        num,
                        i,
                    ),
            decreases j,
        {
            let ghost after = j as int;
            j -= 1;
            let ghost before = alive@;
            proof {
                assert forall|i: int|
                    killed_from(ms, lo as int, hi as int, j as int, num, i) == (killed_from(
                        ms,
                        lo as int,
                        hi as int,
                        after,
                        num,
                        i,
                    ) || kills(ms, lo as int, hi as int, j as int, num, i)) by {
                    if kills(ms, lo as int, hi as int, j as int, num, i) {
                        assert(killed_from(ms, lo as int, hi as int, j as int, num, i));
                    }
                }
                lemma_live_end(ms, lo as int, hi as int, j as int, num);
                assert(match restores_to(ms, lo as int, hi as int, j as int, num) {
                    Some(k) => k < j,
                    None => true,
                });
            }
            if let Record::Restore { target_gen, .. } = &self.0[j] {
                if j + 1 < alive_end {
                    if let Some(k) = self.checkpoint_index(lo, hi, *target_gen) {
                        let mut i: usize = k + 1;
                        while i <= j
                            invariant
                                k < j < num_segments,
                                num == num_segments,
                                k + 1 <= i <= j + 1,
                                alive@.len() == num,
                                before.len() == num,
                                forall|x: int|
                                    0 <= x < num ==> #[trigger] alive@[x] == (before[x] && !(k + 1
                                        <= x < i)),
                            decreases j + 1 - i,
                        {
                            alive.set(i, false);
                            i += 1;
                        }
                        alive_end = k + 1;
                    }
                }
            }
        }
        alive
    }

    /// Tells whether every restore among the markers in `range` that takes
    /// effect goes back to an earlier checkpoint.
    pub fn check_restores(&self, range: std::ops::Range<usize>, num_segments: usize) -> (r: bool)
        requires
            range.start <= range.end <= self.0@.len(),
        ensures
            r == restores_go_back(
                self.0@,
                range.start as int,
                range.end as int,
                num_segments as int,
            ),
    {
        let lo: usize = range.start;
        let hi: usize = range.end;
        let ghost ms = self.0@;
        let ghost num = num_segments as int;
        let mut alive_end: usize = num_segments;
        let mut j: usize = hi;
        while j > lo
            invariant
                lo <= j <= hi <= ms.len(),
                lo == range.start,
                hi == range.end,
                ms == self.0@,
                num == num_segments,
                alive_end == live_end(ms, lo as int, hi as int, j as int, num),
                forall|x: int|
                    j <= x < hi ==> match #[trigger] restores_to(
                        ms,
                        lo as int,
                        hi as int,
                        x,
                        num,
                    ) {
                        Some(k) => k < x,
                        None => true,
                    },
            decreases j,
        {
            j -= 1;
            if let Record::Restore { target_gen, .. } = &self.0[j] {
                if j < alive_end && j + 1 < alive_end {
                    if let Some(k) = self.checkpoint_index(lo, hi, *target_gen) {
                        proof {
                            lemma_checkpoint_in(ms, lo as int, hi as int, *target_gen);
                        }
                        if k >= j {
                            assert(!restores_go_back(ms, lo as int, hi as int, num)) by {
                                assert(restores_to(ms, lo as int, hi as int, j as int, num)
                                    == Some(k as int));
                            }
                            return false;
                        }
                        alive_end = k + 1;
                    }
                }
            }
        }
        true
    }
}

/// The segments that survive, in order.
pub open spec fn live_of(segments: Seq<Segment>, ms: Seq<Record>) -> Seq<Segment> {
    sift(
        segments,
        segments.len() as int,
        |i: int| survives(ms, 0, ms.len() as int, segments.len() as int, i),
    )
}

/// Of the first `n` segments those that survive the restores among the first
/// `n` markers, in order.
pub open spec fn live_prefix_of(segments: Seq<Segment>, ms: Seq<Record>, n: int) -> Seq<Segment> {
    sift(
        segments,
        if n <= segments.len() { n } else { segments.len() as int },
        |i: int| survives(ms, 0, n, n, i),
    )
}

/// Each segment with the checkpoint that closes it.
pub open spec fn with_closing(segments: Seq<Segment>, ms: Seq<Record>) -> Seq<
    (Segment, Option<(u64, String)>),
> {
    Seq::new(segments.len(), |i: int| (segments[i], closing(ms, i)))
}

impl SegmentedJournal {
    /// Keeps the live segments.
    pub fn live(self) -> (r: LiveSegments)
        requires
            restores_go_back(
                self.markers.0@,
                0,
                self.markers.0@.len() as int,
                self.segments@.len() as int,
            ),
        ensures
            r.0@ == live_of(self.segments@, self.markers.0@),
    {
        let alive = self.markers.alive_segments(self.segments.len());
        proof {
            let (s, ms) = (self.segments@, self.markers.0@);
            lemma_sift_same(
                s,
                s.len() as int,
                |i: int| alive@[i],
                |i: int| survives(ms, 0, ms.len() as int, s.len() as int, i),
            );
        }
        LiveSegments(keep_flagged(self.segments, &alive))
    }

    /// Takes the segments up to a checkpoint and keeps those that are live
    /// there: later restores do not affect them.
    pub fn live_prefix(self, checkpoint: &str) -> (r: Result<LiveSegments, Error>)
        requires
            match lookup(self.markers.0@, checkpoint@) {
                Some(g) => g <= self.markers.0@.len() && restores_go_back(
                    self.markers.0@,
                    0,
                    g as int,
                    g as int,
                ),
                None => true,
            },
        ensures
            match (r, lookup(self.markers.0@, checkpoint@)) {
                (Ok(l), Some(g)) => l.0@ == live_prefix_of(
                    self.segments@,
                    self.markers.0@,
                    g as int,
                ),
                (Err(Error::CheckpointNotFound(n)), None) => n@ == checkpoint@,
                _ => false,
            },
    {
        let gen_id: u64 = match self.markers.find_checkpoint(checkpoint) {
            Ok((g, _)) => g,
            Err(e) => return Err(e),
        };
        Ok(self.live_prefix_gen(gen_id))
    }

    /// Like [`SegmentedJournal::live_prefix`], for a generation already looked up.
    pub fn live_prefix_gen(self, gen_id: u64) -> (r: LiveSegments)
        requires
            gen_id <= self.markers.0@.len(),
            restores_go_back(self.markers.0@, 0, gen_id as int, gen_id as int),
        ensures
            r.0@ == live_prefix_of(self.segments@, self.markers.0@, gen_id as int),
    {
        let n: usize = gen_id as usize;
        let ghost ms = self.markers.0@;
        let ghost all = self.segments@;
        let mut alive = self.markers.alive_segments_range(0..n, n);
        let mut segments = self.segments;
        segments.truncate(n);
        alive.truncate(segments.len());
        proof {
            let m = segments@.len() as int;
            let keep = |i: int| survives(ms, 0, n as int, n as int, i);
            lemma_sift_same(segments@, m, |i: int| alive@[i], keep);
            assert(segments@ =~= all.take(m));
            lemma_sift_prefix(all, m, m, keep);
        }
        LiveSegments(keep_flagged(segments, &alive))
    }

    /// Takes the live segments of a range, each with its closing checkpoint.
    pub fn live_slice(
        self,
        at: Option<&str>,
        from: Option<&str>,
        to: Option<&str>,
    ) -> (r: Result<Vec<(Segment, Option<(u64, String)>)>, Error>)
        requires
            at_in_range(self.markers.0@, at),
            restores_go_back(
                self.markers.0@,
                0,
                self.markers.0@.len() as int,
                self.segments@.len() as int,
            ),
        ensures
            match (r, span(self.markers.0@, at, from, to, self.segments@.len() as int)) {
                (Ok(v), Ok((start, end))) => v@ == sift(
                    with_closing(self.segments@, self.markers.0@),
                    self.segments@.len() as int,
                    |i: int|
                        start <= i < end && survives(
                            self.markers.0@,
                            0,
                            self.markers.0@.len() as int,
                            self.segments@.len() as int,
                            i,
                        ),
                ),
                (Err(e), Err(m)) => reports(e, m),
                _ => false,
            },
    {
        let num: usize = self.segments.len();
        let ghost ms = self.markers.0@;
        let ghost all = self.segments@;
        let alive = self.markers.alive_segments(num);
        let (start, end) = match self.markers.segment_range(at, from, to, num) {
            Ok(p) => p,
            Err(e) => return Err(e),
        };
        let markers = self.markers;
        let ghost pairs = with_closing(all, ms);
        let ghost keep = |i: int|
            start <= i < end && survives(ms, 0, ms.len() as int, num as int, i);
        let mut out: Vec<(Segment, Option<(u64, String)>)> = Vec::new();
        let mut i: usize = 0;
        for seg in it: self.segments
            invariant
                it.seq() == all,
                i == it.index(),
                num == all.len(),
                alive@.len() == num,
                ms == markers.0@,
                pairs == with_closing(all, ms),
                forall|i: int|
                    0 <= i < num ==> #[trigger] alive@[i] == survives(
                        ms,
                        0,
                        ms.len() as int,
                        num as int,
                        i,
                    ),
                keep == (|i: int|
                    start <= i < end && survives(ms, 0, ms.len() as int, num as int, i)),
                out@ == sift(pairs, i as int, keep),
        {
            if start <= i && i < end && alive[i] {
                let label: Option<(u64, String)> = match markers.closing_checkpoint(i) {
                    Some((g, n)) => Some((g, n.clone())),
                    None => None,
                };
                out.push((seg, label));
            }
            i += 1;
        }
        Ok(out)
    }
}

proof fn lemma_sift_prefix(s: Seq<Segment>, m: int, n: int, keep: spec_fn(int) -> bool)
    requires
        0 <= n <= m <= s.len(),
    ensures
        sift(s.take(m), n, keep) == sift(s, n, keep),
    decreases n,
{
    if n > 0 {
        lemma_sift_prefix(s, m, n - 1, keep);
    }
}

impl LiveSegments {
    /// The records of the live segments, one after the other.
    pub fn into_records(self) -> (r: Vec<Record>)
        ensures
            r@ == super::segment::records_of(super::segment::segment_views(self.0@)),
    {
        let ghost all = self.0@;
        let ghost views = super::segment::segment_views(all);
        let mut out: Vec<Record> = Vec::new();
        for seg in it: self.0
            invariant
                it.seq() == all,
                views == super::segment::segment_views(all),
                out@ == super::segment::records_of(views.take(it.index() as int)),
        {
            proof {
                let k = it.index() as int;
                assert(views.take(k + 1).drop_last() =~= views.take(k));
                assert(views[k] == seg@);
            }
            let mut records = seg.records;
            out.append(&mut records);
        }
        proof {
            assert(views.take(views.len() as int) =~= views);
        }
        out
    }
}

/// What is live of a journal are the segments that survive its restores, in
/// order and without exception, and the last one is always among them.
pub proof fn law_live_is_what_survives(segments: Seq<Segment>, ms: Seq<Record>) -> (pos: Seq<int>)
    requires
        segments.len() == ms.len() + 1,
    ensures
        pos.len() == live_of(segments, ms).len(),
        forall|k: int|
            0 <= k < pos.len() ==> 0 <= (#[trigger] pos[k]) < segments.len() && live_of(
                segments,
                ms,
            )[k] == segments[pos[k]] && survives(
                ms,
                0,
                ms.len() as int,
                segments.len() as int,
                pos[k],
            ),
        forall|j: int, k: int| 0 <= j < k < pos.len() ==> (#[trigger] pos[j]) < (#[trigger] pos[k]),
        forall|i: int|
            0 <= i < segments.len() && #[trigger] survives(
                ms,
                0,
                ms.len() as int,
                segments.len() as int,
                i,
            ) ==> pos.contains(i),
        pos.contains(segments.len() - 1),
{
    let n = segments.len() as int;
    let keep = |i: int| survives(ms, 0, ms.len() as int, n, i);
    let pos = crate::sift::lemma_sift_positions(segments, n, keep);
    assert forall|i: int|
        0 <= i < n && #[trigger] survives(ms, 0, ms.len() as int, n, i) implies pos.contains(i) by {
        assert(keep(i));
        let k = choose|k: int| 0 <= k < pos.len() && #[trigger] pos[k] == i;
        assert(pos[k] == i);
    }
    assert forall|k: int| 0 <= k < pos.len() implies survives(
        ms,
        0,
        ms.len() as int,
        n,
        #[trigger] pos[k],
    ) by {
        assert(keep(pos[k]));
    }
    law_last_segment_live(ms, n);
    pos
}

} // verus!
