//! What queries by checkpoint give.
use super::timeline::{
    checkpoint_position, first_generation, last_checkpoint_or_start,
    last_named, lemma_checkpoint_position, sliced,
};
use super::types::Record;
use crate::text::number;
use vstd::prelude::*;

verus! {

/// The record is the checkpoint with this name or number.
pub open spec fn is_called(r: Record, name_or_id: Seq<char>) -> bool {
    match r {
        Record::Checkpoint(c) => c.name@ == name_or_id || number(name_or_id) == Some(c.gen_id),
        _ => false,
    }
}

/// Some checkpoint has the number that the text says.
pub open spec fn is_numbered(s: Seq<Record>, name_or_id: Seq<char>) -> bool {
    exists|i: int| 0 <= i < s.len() && has_number(#[trigger] s[i], name_or_id)
}

/// The record is a checkpoint with the number that the text says.
pub open spec fn has_number(r: Record, name_or_id: Seq<char>) -> bool {
    match r {
        Record::Checkpoint(c) => number(name_or_id) == Some(c.gen_id),
        _ => false,
    }
}

/// The record is a checkpoint with this name.
pub open spec fn has_name(r: Record, name: Seq<char>) -> bool {
    match r {
        Record::Checkpoint(c) => c.name@ == name,
        _ => false,
    }
}

proof fn lemma_first_number(s: Seq<Record>, n: int, g: u64, name: Seq<char>)
    requires
        0 <= n <= s.len(),
        number(name) == Some(g),
    ensures
        match first_generation(s, n, g) {
            Some(k) => 0 <= k < n && has_number(s[k], name) && (forall|i: int|
                0 <= i < k ==> !has_number(#[trigger] s[i], name)),
            None => forall|i: int| 0 <= i < n ==> !has_number(#[trigger] s[i], name),
        },
    decreases n,
{
    if n > 0 {
        lemma_first_number(s, n - 1, g, name);
    }
}

proof fn lemma_last_name(s: Seq<Record>, n: int, name: Seq<char>)
    requires
        0 <= n <= s.len(),
    ensures
        match last_named(s, n, name) {
            Some(k) => 0 <= k < n && has_name(s[k], name) && (forall|i: int|
                k < i < n ==> !has_name(#[trigger] s[i], name)),
            None => forall|i: int| 0 <= i < n ==> !has_name(#[trigger] s[i], name),
        },
    decreases n,
{
    if n > 0 {
        lemma_last_name(s, n - 1, name);
    }
}

/// A checkpoint is found exactly where one is called so. A number stands for
/// the first checkpoint with that number; where there is none, a name stands
/// for the last checkpoint with that name.
pub proof fn law_checkpoint_is_found(s: Seq<Record>, name_or_id: Seq<char>)
    ensures
        match checkpoint_position(s, name_or_id) {
            Some(k) => 0 <= k < s.len() && if is_numbered(s, name_or_id) {
                has_number(s[k], name_or_id) && forall|i: int|
                    0 <= i < k ==> !has_number(#[trigger] s[i], name_or_id)
            } else {
                has_name(s[k], name_or_id) && forall|i: int|
                    k < i < s.len() ==> !has_name(#[trigger] s[i], name_or_id)
            },
            None => forall|i: int| 0 <= i < s.len() ==> !is_called(#[trigger] s[i], name_or_id),
        },
{
    let n = s.len() as int;
    lemma_last_name(s, n, name_or_id);
    if let Some(g) = number(name_or_id) {
        lemma_first_number(s, n, g, name_or_id);
        if let Some(k) = first_generation(s, n, g) {
            assert(has_number(s[k], name_or_id));
        }
    }
    assert forall|i: int|
        0 <= i < n && checkpoint_position(s, name_or_id) is None implies !is_called(
        #[trigger] s[i],
        name_or_id,
    ) by {
        assert(!has_name(s[i], name_or_id));
        if number(name_or_id) is Some {
            assert(!has_number(s[i], name_or_id));
        }
    }
}

proof fn lemma_checkpoint_before(s: Seq<Record>, n: int)
    requires
        0 <= n <= s.len(),
    ensures
        ({
            let b = last_checkpoint_or_start(s, n);
            &&& 0 <= b <= n
            &&& n > 0 ==> b < n
            &&& b < n ==> s[b] is Checkpoint || b == 0
            &&& forall|i: int| b < i < n ==> !(#[trigger] s[i] is Checkpoint)
        }),
    decreases n,
{
    if n > 0 {
        lemma_checkpoint_before(s, n - 1);
    }
}

/// A query at a checkpoint gives the stretch that the checkpoint closes: it is
/// the last record of it, and at most the first is another checkpoint.
pub proof fn law_slice_at_is_one_stretch(s: Seq<Record>, name: &str, from: Option<&str>, to: Option<&str>)
    ensures
        match (sliced(s, Some(name), from, to), checkpoint_position(s, name@)) {
            (Ok(r), Some(k)) => {
                &&& r.len() > 0 && r.len() <= k + 1
                &&& r == s.subrange(k + 1 - r.len(), k + 1)
                &&& r.last() == s[k]
                &&& forall|i: int| 0 < i < r.len() - 1 ==> !(#[trigger] r[i] is Checkpoint)
                &&& r.len() < k + 1 ==> r[0] is Checkpoint
            },
            (Err(n), None) => n == name@,
            _ => false,
        },
{
    lemma_checkpoint_position(s, name@);
    if let Some(k) = checkpoint_position(s, name@) {
        lemma_checkpoint_before(s, k);
        let b = last_checkpoint_or_start(s, k);
        let r = s.subrange(b, k + 1);
        assert forall|i: int| 0 < i < r.len() - 1 implies !(#[trigger] r[i] is Checkpoint) by {
            assert(r[i] == s[b + i]);
        }
    }
}

/// What lies up to a checkpoint and what lies from it on make up the log, with
/// the checkpoint in both of them; and a query from one to another gives what
/// lies between them. Without a checkpoint to ask for there is nothing to cut.
pub proof fn law_slices_meet(s: Seq<Record>, name: &str)
    ensures
        match (sliced(s, None, None, Some(name)), sliced(s, None, Some(name), None)) {
            (Ok(a), Ok(b)) => a.len() > 0 && b.len() > 0 && a.last() == b[0] && a.drop_last() + b
                == s && a.last() is Checkpoint,
            (Err(m), Err(n)) => m == name@ && n == name@,
            _ => false,
        },
        sliced(s, None, None, None) == Ok::<Seq<Record>, Seq<char>>(s),
{
    lemma_checkpoint_position(s, name@);
    if let Some(k) = checkpoint_position(s, name@) {
        assert(s.take(k + 1).drop_last() + s.skip(k) =~= s);
    }
}

/// A query from one checkpoint to another begins with the one and ends with the other.
pub proof fn law_slice_between(s: Seq<Record>, from: &str, to: &str)
    ensures
        sliced(s, None, Some(from), Some(to)) matches Ok(r) ==> r.len() > 0 && is_called(
            r[0],
            from@,
        ) && is_called(r.last(), to@) && exists|a: int|
            0 <= a && a + r.len() <= s.len() && r == #[trigger] s.subrange(a, a + r.len()),
{
    lemma_checkpoint_position(s, to@);
    law_checkpoint_is_found(s, to@);
    if let Some(k) = checkpoint_position(s, to@) {
        let t = s.take(k + 1);
        lemma_checkpoint_position(t, from@);
        law_checkpoint_is_found(t, from@);
        if let Some(j) = checkpoint_position(t, from@) {
            let r = t.skip(j);
            assert(r =~= s.subrange(j, j + r.len()));
        }
    }
}

} // verus!
