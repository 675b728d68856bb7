//! What lookups and queries by checkpoint give.
use super::liveness::in_sequence;
use super::markers::{closing, last_named, lookup, past_checkpoint, span};
use super::types::Record;
use crate::error::SpanError;
use crate::text::{decimal, law_number_of_decimal, number};
use vstd::prelude::*;

verus! {

/// The record is a checkpoint with this name.
pub open spec fn is_called(r: Record, name: Seq<char>) -> bool {
    match r {
        Record::Checkpoint { name: n, .. } => n@ == name,
        _ => false,
    }
}

proof fn lemma_last_named(ms: Seq<Record>, n: int, name: Seq<char>)
    requires
        0 <= n <= ms.len(),
    ensures
        match last_named(ms, n, name) {
            Some(k) => 0 <= k < n && is_called(ms[k], name) && forall|i: int|
                k < i < n ==> !is_called(#[trigger] ms[i], name),
            None => forall|i: int| 0 <= i < n ==> !is_called(#[trigger] ms[i], name),
        },
    decreases n,
{
    if n > 0 {
        lemma_last_named(ms, n - 1, name);
    }
}

/// A checkpoint is found by its generation, which no restore is, and by its
/// name, which stands for the last checkpoint that is called so.
pub proof fn law_checkpoints_are_found(ms: Seq<Record>, g: u64, name: Seq<char>)
    requires
        in_sequence(ms),
    ensures
        lookup(ms, decimal(g as nat)) == if 0 < g <= ms.len() && ms[g - 1] is Checkpoint {
            Some(g)
        } else {
            None
        },
        number(name) is None ==> match lookup(ms, name) {
            Some(k) => 0 < k <= ms.len() && is_called(ms[k - 1], name) && forall|i: int|
                k <= i < ms.len() ==> !is_called(#[trigger] ms[i], name),
            None => forall|i: int| 0 <= i < ms.len() ==> !is_called(#[trigger] ms[i], name),
        },
{
    law_number_of_decimal(g);
    lemma_last_named(ms, ms.len() as int, name);
    if 0 < g <= ms.len() {
        assert(ms[g - 1] == ms[g - 1]);
    }
    if let Some(i) = last_named(ms, ms.len() as int, name) {
        assert(is_called(ms[i], name));
    }
}

proof fn lemma_past_checkpoint(ms: Seq<Record>, n: int)
    requires
        0 <= n <= ms.len(),
    ensures
        0 <= past_checkpoint(ms, n) <= n,
        past_checkpoint(ms, n) > 0 ==> ms[past_checkpoint(ms, n) - 1] is Checkpoint,
        forall|i: int| past_checkpoint(ms, n) <= i < n ==> !(#[trigger] ms[i] is Checkpoint),
    decreases n,
{
    if n > 0 {
        lemma_past_checkpoint(ms, n - 1);
    }
}

/// A query at a checkpoint asks for the segments between it and the checkpoint
/// before it, or the start: at least one, with no checkpoint in between. The
/// last of them is closed by the checkpoint.
pub proof fn law_range_at_is_one_stretch(
    ms: Seq<Record>,
    name: &str,
    from: Option<&str>,
    to: Option<&str>,
    num: int,
)
    requires
        in_sequence(ms),
        lookup(ms, name@) matches Some(g) ==> 0 < g <= ms.len() && g <= usize::MAX,
    ensures
        match (span(ms, Some(name), from, to, num), lookup(ms, name@)) {
            (Ok((a, b)), Some(g)) => b == g && 0 <= a < b && (a > 0 ==> ms[a - 1] is Checkpoint)
                && (forall|i: int| a <= i < b - 1 ==> !(#[trigger] ms[i] is Checkpoint)),
            (Err(SpanError::NotFound(n)), None) => n == name@,
            _ => false,
        },
{
    if let Some(g) = lookup(ms, name@) {
        lemma_past_checkpoint(ms, g - 1);
    }
}

/// What lies up to a checkpoint and what lies from it on make up the journal,
/// and a query without a checkpoint asks for all of it. From a later
/// checkpoint to an earlier one there is nothing to ask for.
pub proof fn law_ranges_meet(ms: Seq<Record>, a: &str, b: &str, num: int)
    requires
        lookup(ms, a@) matches Some(g) ==> g <= num && g <= usize::MAX,
        lookup(ms, b@) matches Some(g) ==> g <= num && g <= usize::MAX,
        num >= 0,
    ensures
        span(ms, None, None, None, num) == Ok::<(int, int), SpanError>((0, num)),
        match lookup(ms, a@) {
            Some(g) => span(ms, None, None, Some(a), num) == Ok::<(int, int), SpanError>(
                (0, g as int),
            ) && span(ms, None, Some(a), None, num) == Ok::<(int, int), SpanError>((g as int, num)),
            None => span(ms, None, None, Some(a), num) == Err::<(int, int), SpanError>(
                SpanError::NotFound(a@),
            ) && span(ms, None, Some(a), None, num) == Err::<(int, int), SpanError>(
                SpanError::NotFound(a@),
            ),
        },
        match (lookup(ms, a@), lookup(ms, b@)) {
            (Some(g), Some(h)) => span(ms, None, Some(a), Some(b), num) == if g <= h {
                Ok::<(int, int), SpanError>((g as int, h as int))
            } else {
                Err(SpanError::Reversed)
            },
            _ => true,
        },
{
}

/// A segment is closed by the marker after it, if that is a checkpoint.
pub proof fn law_closing_follows(ms: Seq<Record>, i: int)
    requires
        0 <= i,
    ensures
        closing(ms, i) is Some <==> i < ms.len() && ms[i] is Checkpoint,
        closing(ms, i) matches Some((g, name)) ==> ms[i] == (Record::Checkpoint { gen_id: g, name }),
{
}

} // verus!
