//! The markers of a journal: lookup by number or name, ranges of segments,
//! and which segments survive restores.
//!
//! Marker `i` has generation `i`; a phantom checkpoint of generation 0 stands
//! before the first. Segment `i` lies between marker `i` and the next.
use super::types::Marker;
use crate::error::{Error, SpanError};
use crate::sift::flags;
use crate::text::{number, parse_number, same};
use vstd::prelude::*;

verus! {

/// The checkpoints and restores of a journal, in order, after a phantom
/// checkpoint of generation 0.
#[derive(Debug)]
pub struct Markers(pub Vec<Marker>);

// ── Lookup ───────────────────────────────────────────────────────────

/// True when the marker is a checkpoint with this name.
pub open spec fn is_named(m: Marker, name: Seq<char>) -> bool {
    match m {
        Marker::Checkpoint { name: n, .. } => n@ == name,
        _ => false,
    }
}

/// The last of the first `n` markers that is a checkpoint with this name.
pub open spec fn last_named(ms: Seq<Marker>, n: int, name: Seq<char>) -> Option<int>
    decreases n,
{
    if n <= 0 {
        None
    } else if is_named(ms[n - 1], name) {
        Some(n - 1)
    } else {
        last_named(ms, n - 1, name)
    }
}

/// True when marker `g` is there and has generation `g`; the phantom does not count.
pub open spec fn is_numbered(ms: Seq<Marker>, g: u64) -> bool {
    0 < g < ms.len() && ms[g as int].generation() == g
}

/// The generation of the marker that a name or number stands for: a number
/// stands for a generation, and of several checkpoints with one name the last
/// is meant.
pub open spec fn lookup(ms: Seq<Marker>, name_or_id: Seq<char>) -> Option<u64> {
    match number(name_or_id) {
        Some(g) => if is_numbered(ms, g) {
            Some(g)
        } else {
            None
        },
        None => match last_named(ms, ms.len() as int, name_or_id) {
            Some(i) => Some(ms[i].generation()),
            None => None,
        },
    }
}

/// The last checkpoint among the markers `1..n`, or the start.
pub open spec fn checkpoint_before(ms: Seq<Marker>, n: int) -> int
    decreases n,
{
    if n <= 1 {
        0
    } else if ms[n - 1] is Checkpoint {
        n - 1
    } else {
        checkpoint_before(ms, n - 1)
    }
}

/// One end of a range: that of the marker named, or `default` where none is.
pub open spec fn bound(ms: Seq<Marker>, name: Option<&str>, default: int) -> Result<
    int,
    SpanError,
> {
    match name {
        Some(n) => match lookup(ms, n@) {
            Some(g) => Ok((g as usize) as int),
            None => Err(SpanError::NotFound(n@)),
        },
        None => Ok(default),
    }
}

/// The half-open range of segments that a query asks for: with `at` those
/// from the checkpoint before the marker named, else those from `from` (or the
/// start) up to `to` (or the end).
pub open spec fn span(
    ms: Seq<Marker>,
    at: Option<&str>,
    from: Option<&str>,
    to: Option<&str>,
    num: int,
) -> Result<(int, int), SpanError> {
    match at {
        Some(name) => match lookup(ms, name@) {
            Some(g) => Ok((checkpoint_before(ms, (g as usize) as int), (g as usize) as int)),
            None => Err(SpanError::NotFound(name@)),
        },
        None => match bound(ms, from, 0) {
            Err(e) => Err(e),
            Ok(start) => match bound(ms, to, num) {
                Err(e) => Err(e),
                Ok(end) => if start > end {
                    Err(SpanError::Reversed)
                } else {
                    Ok((start, end))
                },
            },
        },
    }
}

/// The marker named by `at`, if there is one, has no higher generation than
/// there are markers.
pub open spec fn at_in_range(ms: Seq<Marker>, at: Option<&str>) -> bool {
    match at {
        Some(name) => match lookup(ms, name@) {
            Some(g) => g as usize <= ms.len(),
            None => true,
        },
        None => true,
    }
}

impl Markers {
    pub fn new(markers: Vec<Marker>) -> (r: Self)
        ensures
            r.0@ == markers@,
    {
        Markers(markers)
    }

    pub fn len(&self) -> (n: usize)
        ensures
            n == self.0@.len(),
    {
        self.0.len()
    }

    pub fn is_empty(&self) -> (r: bool)
        ensures
            r == (self.0@.len() == 0),
    {
        self.0.len() == 0
    }

    /// The marker at a position.
    pub fn get(&self, idx: usize) -> (r: Option<&Marker>)
        ensures
            match r {
                Some(m) => idx < self.0@.len() && *m == self.0@[idx as int],
                None => idx >= self.0@.len(),
            },
    {
        if idx < self.0.len() {
            Some(&self.0[idx])
        } else {
            None
        }
    }

    /// The markers, in order.
    pub fn iter(&self) -> (r: &[Marker])
        ensures
            r@ == self.0@,
    {
        self.0.as_slice()
    }

    /// The markers, in order.
    pub fn into_vec(self) -> (r: Vec<Marker>)
        ensures
            r@ == self.0@,
    {
        self.0
    }

    /// Finds any marker by its generation.
    pub fn find_marker_by_gen_id(&self, gen_id: u64) -> (r: Result<u64, Error>)
        ensures
            match r {
                Ok(g) => is_numbered(self.0@, gen_id) && g == gen_id,
                Err(Error::MarkerNotFound(n)) => !is_numbered(self.0@, gen_id) && n@
                    == crate::text::decimal(gen_id as nat),
                Err(_) => false,
            },
    {
        if gen_id > 0 && gen_id < self.0.len() as u64 {
            let g: u64 = generation_of(&self.0[gen_id as usize]);
            if g == gen_id {
                return Ok(g);
            }
        }
        Err(Error::MarkerNotFound(crate::text::to_decimal(gen_id)))
    }

    /// Finds the last checkpoint with this name.
    pub fn find_checkpoint_by_name(&self, name: &str) -> (r: Result<u64, Error>)
        ensures
            match (r, last_named(self.0@, self.0@.len() as int, name@)) {
                (Ok(g), Some(i)) => g == self.0@[i].generation(),
                (Err(Error::MarkerNotFound(n)), None) => n@ == name@,
                _ => false,
            },
    {
        let mut i: usize = self.0.len();
        while i > 0
            invariant
                i <= self.0@.len(),
                last_named(self.0@, self.0@.len() as int, name@) == last_named(
                    self.0@,
                    i as int,
                    name@,
                ),
            decreases i,
        {
            i -= 1;
            if let Marker::Checkpoint { gen_id, name: n } = &self.0[i] {
                if same(n.as_str(), name) {
                    return Ok(*gen_id);
                }
            }
        }
        Err(Error::MarkerNotFound(name.to_owned()))
    }

    /// Finds a checkpoint or restore by number, or a checkpoint by name.
    pub fn find_marker(&self, name_or_id: &str) -> (r: Result<u64, Error>)
        ensures
            match (r, lookup(self.0@, name_or_id@)) {
                (Ok(g), Some(h)) => g == h,
                (Err(Error::MarkerNotFound(n)), None) => n@ == (match number(name_or_id@) {
                    Some(g) => crate::text::decimal(g as nat),
                    None => name_or_id@,
                }),
                _ => false,
            },
    {
        match parse_number(name_or_id) {
            Some(id) => self.find_marker_by_gen_id(id),
            None => self.find_checkpoint_by_name(name_or_id),
        }
    }

    /// The marker at a position; `None` for the phantom and past the end.
    pub fn marker_at(&self, marker_idx: usize) -> (r: Option<&Marker>)
        ensures
            match r {
                Some(m) => marker_idx < self.0@.len() && *m == self.0@[marker_idx as int]
                    && m.generation() > 0,
                None => marker_idx >= self.0@.len() || self.0@[marker_idx as int].generation() == 0,
            },
    {
        if marker_idx < self.0.len() && generation_of(&self.0[marker_idx]) > 0 {
            Some(&self.0[marker_idx])
        } else {
            None
        }
    }

    /// The checkpoint at a position; `None` for the phantom, a restore and past the end.
    pub fn checkpoint_at(&self, marker_idx: usize) -> (r: Option<(u64, &String)>)
        ensures
            match r {
                Some((g, n)) => g > 0 && marker_idx < self.0@.len() && self.0@[marker_idx as int]
                    == (Marker::Checkpoint { gen_id: g, name: *n }),
                None => marker_idx >= self.0@.len() || self.0@[marker_idx as int] is Restore
                    || self.0@[marker_idx as int].generation() == 0,
            },
    {
        if marker_idx < self.0.len() {
            if let Marker::Checkpoint { gen_id, name } = &self.0[marker_idx] {
                if *gen_id > 0 {
                    return Some((*gen_id, name));
                }
            }
        }
        None
    }

    /// One end of a range.
    fn bound_of(&self, name: Option<&str>, default: usize) -> (r: Result<usize, Error>)
        ensures
            match (r, bound(self.0@, name, default as int)) {
                (Ok(i), Ok(j)) => i == j,
                (Err(Error::MarkerNotFound(n)), Err(SpanError::NotFound(m))) => n@ == (
                match number(m) {
                    Some(g) => crate::text::decimal(g as nat),
                    None => m,
                }),
                _ => false,
            },
    {
        match name {
            Some(n) => match self.find_marker(n) {
                Ok(g) => Ok(#[verifier::truncate] (g as usize)),
                Err(e) => Err(e),
            },
            None => Ok(default),
        }
    }

    /// The half-open range of segment indices for a query.
    pub fn segment_range(
        &self,
        at: Option<&str>,
        from: Option<&str>,
        to: Option<&str>,
        num_segments: usize,
    ) -> (r: Result<(usize, usize), Error>)
        requires
            at_in_range(self.0@, at),
        ensures
            match (r, span(self.0@, at, from, to, num_segments as int)) {
                (Ok((a, b)), Ok((x, y))) => a == x && b == y,
                (Err(Error::MarkerNotFound(n)), Err(SpanError::NotFound(m))) => n@ == (
                match number(m) {
                    Some(g) => crate::text::decimal(g as nat),
                    None => m,
                }),
                (Err(Error::FromAfterTo), Err(SpanError::Reversed)) => true,
                _ => false,
            },
    {
        if let Some(name) = at {
            let end: usize = match self.find_marker(name) {
                Ok(g) => #[verifier::truncate] (g as usize),
                Err(e) => return Err(e),
            };
            let mut i: usize = end;
            while i > 1
                invariant
                    i <= self.0@.len(),
                    span(self.0@, at, from, to, num_segments as int) == Ok::<_, SpanError>(
                        (checkpoint_before(self.0@, i as int), end as int),
                    ),
                decreases i,
            {
                i -= 1;
                if let Marker::Checkpoint { .. } = &self.0[i] {
                    return Ok((i, end));
                }
            }
            return Ok((0, end));
        }
        let start: usize = match self.bound_of(from, 0) {
            Ok(i) => i,
            Err(e) => return Err(e),
        };
        let end: usize = match self.bound_of(to, num_segments) {
            Ok(i) => i,
            Err(e) => return Err(e),
        };
        if start > end {
            return Err(Error::FromAfterTo);
        }
        Ok((start, end))
    }
}

/// The number of a marker.
pub fn generation_of(m: &Marker) -> (r: u64)
    ensures
        r == m.generation(),
{
    match m {
        Marker::Checkpoint { gen_id, .. } => *gen_id,
        Marker::Restore { gen_id, .. } => *gen_id,
    }
}

// ── Liveness ─────────────────────────────────────────────────────────

/// The last marker of generation `g` among the markers `lo..hi`.
pub open spec fn marker_in(ms: Seq<Marker>, lo: int, hi: int, g: u64) -> Option<int>
    decreases hi - lo,
{
    if hi <= lo {
        None
    } else if ms[hi - 1].generation() == g {
        Some(hi - 1)
    } else {
        marker_in(ms, lo, hi - 1, g)
    }
}

/// The marker back to which the live part of the journal reaches once the
/// restores from `j` on have been honoured, latest first. A restore beyond
/// that marker is itself undone, and one to a marker that is not there is ignored.
pub open spec fn live_end(ms: Seq<Marker>, lo: int, hi: int, j: int) -> int
    decreases hi - j,
{
    if j >= hi {
        hi
    } else {
        match back_from(ms, lo, hi, j, live_end(ms, lo, hi, j + 1)) {
            Some(k) => k,
            None => live_end(ms, lo, hi, j + 1),
        }
    }
}

/// The marker to which marker `j` goes back, if it is a restore not beyond `end`.
pub open spec fn back_from(ms: Seq<Marker>, lo: int, hi: int, j: int, end: int) -> Option<int> {
    match ms[j] {
        Marker::Restore { target_gen, .. } => if j <= end {
            marker_in(ms, lo, hi, target_gen)
        } else {
            None
        },
        _ => None,
    }
}

/// The marker to which marker `j` takes the journal back, where it is a
/// restore that takes effect.
pub open spec fn restores_to(ms: Seq<Marker>, lo: int, hi: int, j: int) -> Option<int> {
    back_from(ms, lo, hi, j, live_end(ms, lo, hi, j + 1))
}

/// True when the restore at `j` takes effect and kills segment `i`.
pub open spec fn kills(ms: Seq<Marker>, lo: int, hi: int, j: int, i: int) -> bool {
    match restores_to(ms, lo, hi, j) {
        Some(k) => k <= i < j,
        None => false,
    }
}

/// True when one of the markers `from..hi` kills segment `i`.
pub open spec fn killed_from(ms: Seq<Marker>, lo: int, hi: int, from: int, i: int) -> bool {
    exists|j: int| from <= j < hi && #[trigger] kills(ms, lo, hi, j, i)
}

/// True when segment `i` survives the restores among the markers `lo..hi`.
pub open spec fn survives(ms: Seq<Marker>, lo: int, hi: int, i: int) -> bool {
    !killed_from(ms, lo, hi, lo, i)
}

/// Every restore that takes effect goes back, to a marker no later than
/// itself, and stands no later than the end of the segments.
pub open spec fn restores_go_back(ms: Seq<Marker>, lo: int, hi: int, num: int) -> bool {
    forall|j: int|
        lo <= j < hi ==> match #[trigger] restores_to(ms, lo, hi, j) {
            Some(k) => k <= j <= num,
            None => true,
        }
}

/// Marker `i` has generation `i`, and each restore goes back to a lower
/// generation than its own, as the kernel writes them.
pub open spec fn in_sequence(ms: Seq<Marker>) -> bool {
    forall|i: int|
        0 <= i < ms.len() ==> (#[trigger] ms[i]).generation() == i && match ms[i] {
            Marker::Restore { target_gen, .. } => target_gen < i,
            _ => true,
        }
}

proof fn lemma_marker_in(ms: Seq<Marker>, lo: int, hi: int, g: u64)
    ensures
        match marker_in(ms, lo, hi, g) {
            Some(k) => lo <= k < hi && ms[k].generation() == g,
            None => true,
        },
    decreases hi - lo,
{
    if hi > lo && ms[hi - 1].generation() != g {
        lemma_marker_in(ms, lo, hi - 1, g);
    }
}

proof fn lemma_live_end(ms: Seq<Marker>, lo: int, hi: int, j: int)
    requires
        0 <= lo <= j <= hi,
    ensures
        0 <= live_end(ms, lo, hi, j) <= hi,
    decreases hi - j,
{
    if j < hi {
        lemma_live_end(ms, lo, hi, j + 1);
        match ms[j] {
            Marker::Restore { target_gen, .. } => {
                lemma_marker_in(ms, lo, hi, target_gen);
            },
            _ => {},
        }
    }
}

impl Markers {
    /// The position of the last marker of generation `g` among the markers `lo..hi`.
    fn marker_index(&self, lo: usize, hi: usize, g: u64) -> (r: Option<usize>)
        requires
            lo <= hi <= self.0@.len(),
        ensures
            match r {
                Some(k) => marker_in(self.0@, lo as int, hi as int, g) == Some(k as int),
                None => marker_in(self.0@, lo as int, hi as int, g) is None,
            },
    {
        let mut i: usize = hi;
        while i > lo
            invariant
                lo <= i <= hi <= self.0@.len(),
                marker_in(self.0@, lo as int, hi as int, g) == marker_in(
                    self.0@,
                    lo as int,
                    i as int,
                    g,
                ),
            decreases i,
        {
            i -= 1;
            if generation_of(&self.0[i]) == g {
                return Some(i);
            }
        }
        None
    }

    /// The liveness of all segments.
    pub fn alive_segments(&self, num_segments: usize) -> (r: Vec<bool>)
        requires
            num_segments == 0 || restores_go_back(
                self.0@,
                0,
                self.0@.len() as int,
                num_segments as int,
            ),
        ensures
            r@.len() == num_segments,
            forall|i: int|
                0 <= i < num_segments ==> #[trigger] r@[i] == survives(
                    self.0@,
                    0,
                    self.0@.len() as int,
                    i,
                ),
    {
        self.alive_segments_range(0..self.0.len(), num_segments)
    }

    /// The liveness of segments, by the markers in `range` alone.
    pub fn alive_segments_range(
        &self,
        range: std::ops::Range<usize>,
        num_segments: usize,
    ) -> (r: Vec<bool>)
        requires
            num_segments == 0 || range.start >= range.end || (range.end <= self.0@.len()
                && restores_go_back(
                self.0@,
                range.start as int,
                range.end as int,
                num_segments as int,
            )),
        ensures
            r@.len() == num_segments,
            forall|i: int|
                0 <= i < num_segments ==> #[trigger] r@[i] == survives(
                    self.0@,
                    range.start as int,
                    range.end as int,
                    i,
                ),
    {
        let lo: usize = range.start;
        let hi: usize = range.end;
        let ghost ms = self.0@;
        let mut alive: Vec<bool> = flags(num_segments, true);
        if num_segments == 0 || lo >= hi {
            return alive;
        }
        let mut alive_end: usize = hi;
        let mut j: usize = hi;
        while j > lo
            invariant
                lo <= j <= hi <= ms.len(),
                ms == self.0@,
                restores_go_back(ms, lo as int, hi as int, num_segments as int),
                alive@.len() == num_segments,
                alive_end == live_end(ms, lo as int, hi as int, j as int),
                forall|i: int|
                    0 <= i < num_segments ==> #[trigger] alive@[i] == !killed_from(
                        ms,
                        lo as int,
                        hi as int,
                        j as int,
                        i,
                    ),
            decreases j,
        {
            let ghost after = j as int;
            j -= 1;
            let ghost before = alive@;
            proof {
                assert forall|i: int|
                    killed_from(ms, lo as int, hi as int, j as int, i) == (killed_from(
                        ms,
                        lo as int,
                        hi as int,
                        after,
                        i,
                    ) || kills(ms, lo as int, hi as int, j as int, i)) by {
                    if kills(ms, lo as int, hi as int, j as int, i) {
                        assert(killed_from(ms, lo as int, hi as int, j as int, i));
                    }
                }
                assert(match restores_to(ms, lo as int, hi as int, j as int) {
                    Some(k) => k <= j <= num_segments,
                    None => true,
                });
            }
            if let Marker::Restore { target_gen, .. } = &self.0[j] {
                if j <= alive_end {
                    if let Some(k) = self.marker_index(lo, hi, *target_gen) {
                        proof {
                            lemma_marker_in(ms, lo as int, hi as int, *target_gen);
                        }
                        let mut i: usize = k;
                        while i < j
                            invariant
                                k <= i <= j <= num_segments,
                                alive@.len() == num_segments,
                                before.len() == num_segments,
                                forall|x: int|
                                    0 <= x < num_segments ==> #[trigger] alive@[x] == (before[x]
                                        && !(k <= x < i)),
                            decreases j - i,
                        {
                            alive.set(i, false);
                            i += 1;
                        }
                        alive_end = k;
                    }
                }
            }
        }
        alive
    }

    /// Tells whether every restore among the markers in `range` that takes
    /// effect goes back.
    pub fn check_restores(&self, range: std::ops::Range<usize>, num_segments: usize) -> (r: bool)
        requires
            range.start <= range.end <= self.0@.len(),
        ensures
            r == restores_go_back(
                self.0@,
                range.start as int,
                range.end as int,
                num_segments as int,
            ),
    {
        let lo: usize = range.start;
        let hi: usize = range.end;
        let ghost ms = self.0@;
        let mut alive_end: usize = hi;
        let mut j: usize = hi;
        while j > lo
            invariant
                lo <= j <= hi <= ms.len(),
                lo == range.start,
                hi == range.end,
                ms == self.0@,
                alive_end == live_end(ms, lo as int, hi as int, j as int),
                forall|x: int|
                    j <= x < hi ==> match #[trigger] restores_to(ms, lo as int, hi as int, x) {
                        Some(k) => k <= x <= num_segments,
                        None => true,
                    },
            decreases j,
        {
            j -= 1;
            if let Marker::Restore { target_gen, .. } = &self.0[j] {
                if j <= alive_end {
                    if let Some(k) = self.marker_index(lo, hi, *target_gen) {
                        if k > j || j > num_segments {
                            assert(!restores_go_back(
                                ms,
                                lo as int,
                                hi as int,
                                num_segments as int,
                            )) by {
                                assert(restores_to(ms, lo as int, hi as int, j as int) == Some(
                                    k as int,
                                ));
                            }
                            return false;
                        }
                        alive_end = k;
                    }
                }
            }
        }
        true
    }
}

// ── Laws ─────────────────────────────────────────────────────────────

/// In a journal as the kernel writes it, restores go back.
pub proof fn law_sequence_goes_back(ms: Seq<Marker>, lo: int, hi: int, num: int)
    requires
        in_sequence(ms),
        0 <= lo <= hi <= ms.len(),
        hi <= num + 1,
    ensures
        restores_go_back(ms, lo, hi, num),
{
    assert forall|j: int| lo <= j < hi implies match #[trigger] restores_to(ms, lo, hi, j) {
        Some(k) => k <= j <= num,
        None => true,
    } by {
        match ms[j] {
            Marker::Restore { target_gen, .. } => {
                lemma_marker_in(ms, lo, hi, target_gen);
            },
            _ => {},
        }
    }
}

/// Without restores every segment is live.
pub proof fn law_no_restore_all_live(ms: Seq<Marker>, lo: int, hi: int, i: int)
    requires
        0 <= lo <= hi <= ms.len(),
        forall|j: int| lo <= j < hi ==> !((#[trigger] ms[j]) is Restore),
    ensures
        survives(ms, lo, hi, i),
{
    assert forall|j: int| lo <= j < hi implies !#[trigger] kills(ms, lo, hi, j, i) by {
        assert(!(ms[j] is Restore));
    }
}

/// The segment after the last marker is always live.
pub proof fn law_last_segment_live(ms: Seq<Marker>)
    requires
        ms.len() > 0,
    ensures
        survives(ms, 0, ms.len() as int, ms.len() - 1),
{
    assert forall|j: int| 0 <= j < ms.len() implies !#[trigger] kills(
        ms,
        0,
        ms.len() as int,
        j,
        ms.len() - 1,
    ) by {}
}

proof fn lemma_marker_in_sequence(ms: Seq<Marker>, hi: int, g: u64)
    requires
        in_sequence(ms),
        0 <= hi <= ms.len(),
    ensures
        marker_in(ms, 0, hi, g) == (if g < hi {
            Some(g as int)
        } else {
            None::<int>
        }),
    decreases hi,
{
    if hi > 0 {
        assert(ms[hi - 1].generation() == hi - 1);
        lemma_marker_in_sequence(ms, hi - 1, g);
    }
}

/// Live ends agree on a prefix, where the longer journal reaches no further.
proof fn lemma_live_end_prefix(ms: Seq<Marker>, hi: int, j: int)
    requires
        in_sequence(ms),
        0 <= j <= hi <= ms.len(),
        live_end(ms, 0, ms.len() as int, hi) == hi - 1,
        hi >= 1,
    ensures
        j < hi ==> restores_to(ms, 0, hi, j) == restores_to(ms, 0, ms.len() as int, j),
        j < hi ==> live_end(ms, 0, hi, j) == live_end(ms, 0, ms.len() as int, j) || (live_end(
            ms,
            0,
            hi,
            j,
        ) == hi && live_end(ms, 0, ms.len() as int, j) == hi - 1),
    decreases hi - j,
{
    let n = ms.len() as int;
    if j < hi {
        lemma_live_end_prefix(ms, hi, j + 1);
        match ms[j] {
            Marker::Restore { target_gen, .. } => {
                lemma_marker_in_sequence(ms, hi, target_gen);
                lemma_marker_in_sequence(ms, n, target_gen);
            },
            _ => {},
        }
    }
}

/// The journal `ms` with a restore to generation `g` appended.
pub open spec fn restored(ms: Seq<Marker>, g: u64) -> Seq<Marker> {
    ms.push(Marker::Restore { gen_id: ms.len() as u64, target_gen: g })
}

/// A restore to generation `g` gives back what was live at `g`: of the segments
/// up to marker `g` those survive that the markers up to `g` leave, and of the
/// segments from there to the restore none does.
pub proof fn law_restore_gives_back(ms: Seq<Marker>, g: u64, i: int)
    requires
        in_sequence(ms),
        g < ms.len() <= u64::MAX,
        0 <= i < ms.len(),
    ensures
        in_sequence(restored(ms, g)),
        survives(restored(ms, g), 0, ms.len() as int + 1, i) == (i < g && survives(
            ms,
            0,
            g + 1,
            i,
        )),
{
    let r = restored(ms, g);
    let n = r.len() as int;
    let hi = g + 1;
    assert(in_sequence(r)) by {
        assert forall|x: int| 0 <= x < r.len() implies (#[trigger] r[x]).generation() == x
            && match r[x] {
            Marker::Restore { target_gen, .. } => target_gen < x,
            _ => true,
        } by {
            if x < ms.len() {
                assert(r[x] == ms[x]);
            }
        }
    }
    lemma_marker_in_sequence(r, n, g);
    assert(live_end(r, 0, n, n) == n);
    assert(restores_to(r, 0, n, n - 1) == Some(g as int));
    assert(live_end(r, 0, n, n - 1) == g);
    lemma_quiet(r, g as int, n - 1, hi);
    assert(live_end(r, 0, n, hi) == g);
    assert forall|j: int| 0 <= j < hi implies restores_to(r, 0, hi, j) == restores_to(r, 0, n, j)
        && restores_to(ms, 0, hi, j) == restores_to(r, 0, hi, j) by {
        lemma_live_end_prefix(r, hi, j);
        lemma_same_prefix(ms, r, hi, j);
    }
    if i >= g {
        assert(kills(r, 0, n, n - 1, i));
    } else {
        if killed_from(r, 0, n, 0, i) {
            let j = choose|j: int| 0 <= j < n && #[trigger] kills(r, 0, n, j, i);
            if j < hi {
                assert(kills(ms, 0, hi, j, i));
            } else if j < n - 1 {
                lemma_quiet(r, g as int, n - 1, j);
                lemma_quiet(r, g as int, n - 1, j + 1);
            }
        }
        if killed_from(ms, 0, hi, 0, i) {
            let j = choose|j: int| 0 <= j < hi && #[trigger] kills(ms, 0, hi, j, i);
            assert(kills(r, 0, n, j, i));
        }
    }
}

/// Between the restored marker and the restore nothing takes effect.
proof fn lemma_quiet(r: Seq<Marker>, g: int, last: int, j: int)
    requires
        0 <= g < j <= last < r.len(),
        live_end(r, 0, r.len() as int, last) == g,
    ensures
        live_end(r, 0, r.len() as int, j) == g,
        j < last ==> restores_to(r, 0, r.len() as int, j) is None,
    decreases last - j,
{
    if j < last {
        lemma_quiet(r, g, last, j + 1);
    }
}

/// What the first `hi` markers do depends on them alone.
proof fn lemma_same_prefix(a: Seq<Marker>, b: Seq<Marker>, hi: int, j: int)
    requires
        0 <= j <= hi <= a.len(),
        hi <= b.len(),
        forall|x: int| 0 <= x < hi ==> #[trigger] a[x] == b[x],
    ensures
        live_end(a, 0, hi, j) == live_end(b, 0, hi, j),
        j < hi ==> restores_to(a, 0, hi, j) == restores_to(b, 0, hi, j),
    decreases hi - j,
{
    if j < hi {
        lemma_same_prefix(a, b, hi, j + 1);
        match a[j] {
            Marker::Restore { target_gen, .. } => {
                lemma_same_marker_in(a, b, hi, target_gen);
            },
            _ => {},
        }
    }
}

proof fn lemma_same_marker_in(a: Seq<Marker>, b: Seq<Marker>, hi: int, g: u64)
    requires
        0 <= hi <= a.len(),
        hi <= b.len(),
        forall|x: int| 0 <= x < hi ==> #[trigger] a[x] == b[x],
    ensures
        marker_in(a, 0, hi, g) == marker_in(b, 0, hi, g),
    decreases hi,
{
    if hi > 0 {
        lemma_same_marker_in(a, b, hi - 1, g);
        assert(a[hi - 1] == b[hi - 1]);
    }
}

} // verus!
