//! What lookups and queries by marker give, and what segments hold.
use super::journal::{
    closed_segments, markers_among, open_segment, segments_of, SegmentView,
};
use super::markers::{checkpoint_before, in_sequence, last_named, lookup, span};
use super::types::{Action, Marker, Record};
use crate::error::SpanError;
use crate::text::{decimal, law_number_of_decimal, number};
use vstd::prelude::*;

verus! {

// ── Lookups ──────────────────────────────────────────────────────────

/// The marker is a checkpoint with this name.
pub open spec fn is_checkpoint_called(m: Marker, name: Seq<char>) -> bool {
    match m {
        Marker::Checkpoint { name: n, .. } => n@ == name,
        Marker::Restore { .. } => false,
    }
}

proof fn lemma_last_named(ms: Seq<Marker>, n: int, name: Seq<char>)
    requires
        0 <= n <= ms.len(),
    ensures
        match last_named(ms, n, name) {
            Some(k) => 0 <= k < n && is_checkpoint_called(ms[k], name) && forall|i: int|
                k < i < n ==> !is_checkpoint_called(#[trigger] ms[i], name),
            None => forall|i: int| 0 <= i < n ==> !is_checkpoint_called(#[trigger] ms[i], name),
        },
    decreases n,
{
    if n > 0 {
        lemma_last_named(ms, n - 1, name);
    }
}

/// Any marker, checkpoint or restore, is found by its generation, and by no
/// other number. A name stands for the last checkpoint that is called so.
pub proof fn law_markers_are_found(ms: Seq<Marker>, g: u64, name: Seq<char>)
    requires
        in_sequence(ms),
    ensures
        lookup(ms, decimal(g as nat)) == if 0 < g < ms.len() {
            Some(g)
        } else {
            None
        },
        number(name) is None ==> match lookup(ms, name) {
            Some(k) => k < ms.len() && is_checkpoint_called(ms[k as int], name) && forall|i: int|
                k < i < ms.len() ==> !is_checkpoint_called(#[trigger] ms[i], name),
            None => forall|i: int|
                0 <= i < ms.len() ==> !is_checkpoint_called(#[trigger] ms[i], name),
        },
{
    law_number_of_decimal(g);
    lemma_last_named(ms, ms.len() as int, name);
    if 0 < g < ms.len() {
        assert(ms[g as int].generation() == g);
    }
    if let Some(i) = last_named(ms, ms.len() as int, name) {
        assert(ms[i].generation() == i);
    }
}

// ── Ranges ───────────────────────────────────────────────────────────

proof fn lemma_checkpoint_before(ms: Seq<Marker>, n: int)
    requires
        0 <= n <= ms.len(),
    ensures
        0 <= checkpoint_before(ms, n) <= n,
        n > 0 ==> checkpoint_before(ms, n) < n,
        checkpoint_before(ms, n) > 0 ==> ms[checkpoint_before(ms, n)] is Checkpoint,
        forall|i: int| checkpoint_before(ms, n) < i < n ==> !(#[trigger] ms[i] is Checkpoint),
    decreases n,
{
    if n > 1 {
        lemma_checkpoint_before(ms, n - 1);
    }
}

/// A query at a marker asks for what lies between it and the checkpoint before
/// it, or the start: at least one segment, and no checkpoint in between.
pub proof fn law_range_at_is_one_stretch(
    ms: Seq<Marker>,
    name: &str,
    from: Option<&str>,
    to: Option<&str>,
    num: int,
)
    requires
        in_sequence(ms),
        lookup(ms, name@) matches Some(g) ==> 0 < g < ms.len() && g <= usize::MAX,
    ensures
        match (span(ms, Some(name), from, to, num), lookup(ms, name@)) {
            (Ok((a, b)), Some(g)) => b == g && 0 <= a < b && (a > 0 ==> ms[a] is Checkpoint) && (
            forall|i: int| a < i < b ==> !(#[trigger] ms[i] is Checkpoint)),
            (Err(SpanError::NotFound(n)), None) => n == name@,
            _ => false,
        },
{
    if let Some(g) = lookup(ms, name@) {
        lemma_checkpoint_before(ms, g as int);
    }
}

/// What lies up to a marker and what lies from it on make up the journal, and
/// a query without a marker asks for all of it. From a later marker to an
/// earlier one there is nothing to ask for.
pub proof fn law_ranges_meet(ms: Seq<Marker>, a: &str, b: &str, num: int)
    requires
        lookup(ms, a@) matches Some(g) ==> g <= num && g <= usize::MAX,
        lookup(ms, b@) matches Some(g) ==> g <= num && g <= usize::MAX,
        num >= 0,
    ensures
        span(ms, None, None, None, num) == Ok::<(int, int), SpanError>((0, num)),
        match lookup(ms, a@) {
            Some(g) => span(ms, None, None, Some(a), num) == Ok::<(int, int), SpanError>(
                (0, g as int),
            ) && span(ms, None, Some(a), None, num) == Ok::<(int, int), SpanError>((g as int, num)),
            None => span(ms, None, None, Some(a), num) == Err::<(int, int), SpanError>(
                SpanError::NotFound(a@),
            ) && span(ms, None, Some(a), None, num) == Err::<(int, int), SpanError>(
                SpanError::NotFound(a@),
            ),
        },
        match (lookup(ms, a@), lookup(ms, b@)) {
            (Some(g), Some(h)) => span(ms, None, Some(a), Some(b), num) == if g <= h {
                Ok::<(int, int), SpanError>((g as int, h as int))
            } else {
                Err(SpanError::Reversed)
            },
            _ => true,
        },
{
}

// ── Segments ─────────────────────────────────────────────────────────

/// The actions among the first `n` records, in order.
pub open spec fn actions_among(s: Seq<Record>, n: int) -> Seq<Action>
    decreases n,
{
    if n <= 0 {
        Seq::empty()
    } else {
        match s[n - 1] {
            Record::Action(a) => actions_among(s, n - 1).push(a),
            Record::Marker(_) => actions_among(s, n - 1),
        }
    }
}

/// The actions of the segments, one segment after the other.
pub open spec fn actions_held(v: Seq<SegmentView>) -> Seq<Action>
    decreases v.len(),
{
    if v.len() == 0 {
        Seq::empty()
    } else {
        actions_held(v.drop_last()) + v.last().records
    }
}

proof fn lemma_segments_hold(s: Seq<Record>, n: int)
    requires
        0 <= n <= s.len(),
    ensures
        actions_held(closed_segments(s, n)) + open_segment(s, n).records == actions_among(s, n),
        closed_segments(s, n).len() == markers_among(s, n).len(),
    decreases n,
{
    if n == 0 {
        assert(actions_held(closed_segments(s, 0)) + open_segment(s, 0).records =~= Seq::empty());
    } else {
        lemma_segments_hold(s, n - 1);
        let (c, o) = (closed_segments(s, n - 1), open_segment(s, n - 1));
        match s[n - 1] {
            Record::Marker(_) => {
                assert(c.push(o).drop_last() =~= c);
                assert(actions_held(c.push(o)) + Seq::<Action>::empty() =~= actions_held(c)
                    + o.records);
            },
            Record::Action(a) => {
                assert(actions_held(c) + o.records.push(a) =~= (actions_held(c) + o.records).push(
                    a,
                ));
            },
        }
    }
}

/// Cutting a journal into segments loses no action and keeps their order, and
/// there is one segment more than there are markers.
pub proof fn law_segments_hold_actions(s: Seq<Record>)
    ensures
        actions_held(segments_of(s)) == actions_among(s, s.len() as int),
        segments_of(s).len() == markers_among(s, s.len() as int).len() + 1,
{
    let n = s.len() as int;
    lemma_segments_hold(s, n);
    let c = closed_segments(s, n);
    assert(c.push(open_segment(s, n)).drop_last() =~= c);
}

} // verus!
