//! The skeleton of a journal: its checkpoint and restore records.
//! Lookup by number or name, and ranges of segments.
use super::types::Record;
use crate::error::{reports, Error, SpanError};
use crate::text::{number, parse_number, same};
use vstd::prelude::*;

verus! {

/// The checkpoint and restore records of a journal, in order. A journal that
/// the kernel wrote numbers them from 1, so that marker `i` has generation `i + 1`.
#[derive(Debug)]
pub struct Markers(pub Vec<Record>);

/// True when the record is a checkpoint with this name.
pub open spec fn named(r: Record, name: Seq<char>) -> bool {
    match r {
        Record::Checkpoint { name: n, .. } => n@ == name,
        _ => false,
    }
}

/// The last of the first `n` records that is a checkpoint with this name.
pub open spec fn last_named(ms: Seq<Record>, n: int, name: Seq<char>) -> Option<int>
    decreases n,
{
    if n <= 0 {
        None
    } else if named(ms[n - 1], name) {
        Some(n - 1)
    } else {
        last_named(ms, n - 1, name)
    }
}

/// The generation of a checkpoint.
pub open spec fn generation(r: Record) -> u64 {
    match r {
        Record::Checkpoint { gen_id, .. } => gen_id,
        Record::Restore { gen_id, .. } => gen_id,
        _ => 0,
    }
}

/// True when the checkpoint of generation `g` stands where that generation belongs.
pub open spec fn numbered(ms: Seq<Record>, g: u64) -> bool {
    1 <= g <= ms.len() && ms[g - 1] is Checkpoint && generation(ms[g - 1]) == g
}

/// The position of the checkpoint that a name or number stands for: a number
/// stands for a generation, and of several checkpoints with one name the last is meant.
pub open spec fn checkpoint_position(ms: Seq<Record>, name_or_id: Seq<char>) -> Option<int> {
    match number(name_or_id) {
        Some(g) => if numbered(ms, g) {
            Some(g - 1)
        } else {
            None
        },
        None => last_named(ms, ms.len() as int, name_or_id),
    }
}

/// The generation of the checkpoint that a name or number stands for.
pub open spec fn lookup(ms: Seq<Record>, name_or_id: Seq<char>) -> Option<u64> {
    match checkpoint_position(ms, name_or_id) {
        Some(i) => Some(generation(ms[i])),
        None => None,
    }
}

/// The position past the last checkpoint among the first `n` records.
pub open spec fn past_checkpoint(ms: Seq<Record>, n: int) -> int
    decreases n,
{
    if n <= 0 {
        0
    } else if ms[n - 1] is Checkpoint {
        n
    } else {
        past_checkpoint(ms, n - 1)
    }
}

/// The half-open range of segments that a query asks for: with `at` the
/// segment or segments from the checkpoint before it, else those from `from`
/// (or the start) up to `to` (or the end).
pub open spec fn span(
    ms: Seq<Record>,
    at: Option<&str>,
    from: Option<&str>,
    to: Option<&str>,
    num: int,
) -> Result<(int, int), SpanError> {
    match at {
        Some(name) => match lookup(ms, name@) {
            Some(g) => Ok((past_checkpoint(ms, (g as usize) - 1), (g as usize) as int)),
            None => Err(SpanError::NotFound(name@)),
        },
        None => match bound(ms, from, 0) {
            Err(e) => Err(e),
            Ok(start) => match bound(ms, to, num) {
                Err(e) => Err(e),
                Ok(end) => if start > end {
                    Err(SpanError::Reversed)
                } else {
                    Ok((start, end))
                },
            },
        },
    }
}

/// One end of a range: that of the checkpoint named, or `default` where none is.
pub open spec fn bound(ms: Seq<Record>, name: Option<&str>, default: int) -> Result<
    int,
    SpanError,
> {
    match name {
        Some(n) => match lookup(ms, n@) {
            Some(g) => Ok((g as usize) as int),
            None => Err(SpanError::NotFound(n@)),
        },
        None => Ok(default),
    }
}

/// The checkpoint named by `at`, if there is one, has no higher generation
/// than there are markers.
pub open spec fn at_in_range(ms: Seq<Record>, at: Option<&str>) -> bool {
    match at {
        Some(name) => match lookup(ms, name@) {
            Some(g) => g as usize <= ms.len(),
            None => true,
        },
        None => true,
    }
}

/// The checkpoint at position `i`, if one stands there.
pub open spec fn closing(ms: Seq<Record>, i: int) -> Option<(u64, String)> {
    if 0 <= i < ms.len() {
        match ms[i] {
            Record::Checkpoint { gen_id, name } => Some((gen_id, name)),
            _ => None,
        }
    } else {
        None
    }
}

proof fn lemma_last_named(ms: Seq<Record>, n: int, name: Seq<char>)
    ensures
        match last_named(ms, n, name) {
            Some(i) => 0 <= i < n && named(ms[i], name),
            None => true,
        },
    decreases n,
{
    if n > 0 && !named(ms[n - 1], name) {
        lemma_last_named(ms, n - 1, name);
    }
}

impl Markers {
    pub fn len(&self) -> (n: usize)
        ensures
            n == self.0@.len(),
    {
        self.0.len()
    }

    pub fn is_empty(&self) -> (r: bool)
        ensures
            r == (self.0@.len() == 0),
    {
        self.0.len() == 0
    }

    /// Finds the checkpoint of a generation, where it stands in its place.
    pub fn find_checkpoint_by_gen_id(&self, gen_id: u64) -> (r: Result<(u64, &String), Error>)
        ensures
            match r {
                Ok((g, name)) => numbered(self.0@, gen_id) && g == gen_id && self.0@[gen_id - 1] == (
                Record::Checkpoint { gen_id, name: *name }),
                Err(e) => !numbered(self.0@, gen_id) && e is CheckpointNotFound && e.text()
                    == "checkpoint not found: "@ + crate::text::decimal(gen_id as nat),
            },
    {
        if 1 <= gen_id && gen_id <= self.0.len() as u64 {
            if let Record::Checkpoint { gen_id: g, name } = &self.0[(gen_id - 1) as usize] {
                if *g == gen_id {
                    return Ok((*g, name));
                }
            }
        }
        Err(Error::CheckpointNotFound(crate::text::to_decimal(gen_id)))
    }

    /// Finds the last checkpoint with this name.
    pub fn find_checkpoint_by_name(&self, name: &str) -> (r: Result<(u64, &String), Error>)
        ensures
            match r {
                Ok((g, n)) => last_named(self.0@, self.0@.len() as int, name@) is Some && self.0@[
                    last_named(self.0@, self.0@.len() as int, name@)->0] == (Record::Checkpoint {
                    gen_id: g,
                    name: *n,
                }),
                Err(Error::CheckpointNotFound(n)) => n@ == name@ && last_named(
                    self.0@,
                    self.0@.len() as int,
                    name@,
                ) is None,
                Err(_) => false,
            },
    {
        let mut i: usize = self.0.len();
        while i > 0
            invariant
                i <= self.0@.len(),
                last_named(self.0@, self.0@.len() as int, name@) == last_named(
                    self.0@,
                    i as int,
                    name@,
                ),
            decreases i,
        {
            i -= 1;
            if let Record::Checkpoint { gen_id, name: n } = &self.0[i] {
                if same(n.as_str(), name) {
                    return Ok((*gen_id, n));
                }
            }
        }
        Err(Error::CheckpointNotFound(name.to_owned()))
    }

    /// Finds a checkpoint by generation or name.
    pub fn find_checkpoint(&self, name_or_id: &str) -> (r: Result<(u64, &String), Error>)
        ensures
            match r {
                Ok((g, n)) => lookup(self.0@, name_or_id@) == Some(g) && self.0@[
                    checkpoint_position(self.0@, name_or_id@)->0] == (Record::Checkpoint {
                    gen_id: g,
                    name: *n,
                }),
                Err(Error::CheckpointNotFound(n)) => lookup(self.0@, name_or_id@) is None && n@
                    == name_or_id@,
                Err(_) => false,
            },
    {
        match parse_number(name_or_id) {
            Some(g) => match self.find_checkpoint_by_gen_id(g) {
                Ok(found) => Ok(found),
                Err(_) => Err(Error::CheckpointNotFound(name_or_id.to_owned())),
            },
            None => self.find_checkpoint_by_name(name_or_id),
        }
    }

    /// The checkpoint that closes segment `i`; `None` where a restore does, or nothing.
    pub fn closing_checkpoint(&self, i: usize) -> (r: Option<(u64, &String)>)
        ensures
            match r {
                Some((g, n)) => closing(self.0@, i as int) == Some((g, *n)),
                None => closing(self.0@, i as int) is None,
            },
    {
        if i < self.0.len() {
            if let Record::Checkpoint { gen_id, name } = &self.0[i] {
                return Some((*gen_id, name));
            }
        }
        None
    }

    /// One end of a range.
    fn bound_of(&self, name: Option<&str>, default: usize) -> (r: Result<usize, Error>)
        ensures
            match (r, bound(self.0@, name, default as int)) {
                (Ok(i), Ok(j)) => i == j,
                (Err(e), Err(m)) => reports(e, m),
                _ => false,
            },
    {
        match name {
            Some(n) => match self.find_checkpoint(n) {
                Ok((g, _)) => Ok(#[verifier::truncate] (g as usize)),
                Err(e) => Err(e),
            },
            None => Ok(default),
        }
    }

    /// The half-open range of segment indices for a query.
    pub fn segment_range(
        &self,
        at: Option<&str>,
        from: Option<&str>,
        to: Option<&str>,
        num_segments: usize,
    ) -> (r: Result<(usize, usize), Error>)
        requires
            at_in_range(self.0@, at),
        ensures
            match (r, span(self.0@, at, from, to, num_segments as int)) {
                (Ok((a, b)), Ok((x, y))) => a == x && b == y,
                (Err(e), Err(m)) => reports(e, m),
                _ => false,
            },
    {
        if let Some(name) = at {
            let end: usize = match self.find_checkpoint(name) {
                Ok((g, _)) => #[verifier::truncate] (g as usize),
                Err(e) => return Err(e),
            };
            let mut i: usize = if end == 0 {
                0
            } else {
                end - 1
            };
            while i > 0
                invariant
                    i <= self.0@.len(),
                    span(self.0@, at, from, to, num_segments as int) == Ok::<_, SpanError>(
                        (past_checkpoint(self.0@, end - 1), end as int),
                    ),
                    past_checkpoint(self.0@, i as int) == past_checkpoint(self.0@, end - 1),
                decreases i,
            {
                if let Record::Checkpoint { .. } = &self.0[i - 1] {
                    return Ok((i, end));
                }
                i -= 1;
            }
            return Ok((0, end));
        }
        let start: usize = match self.bound_of(from, 0) {
            Ok(i) => i,
            Err(e) => return Err(e),
        };
        let end: usize = match self.bound_of(to, num_segments) {
            Ok(i) => i,
            Err(e) => return Err(e),
        };
        if start > end {
            return Err(Error::FromAfterTo);
        }
        Ok((start, end))
    }
}

} // verus!
