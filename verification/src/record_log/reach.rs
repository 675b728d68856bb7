//! What restores leave of a log, and what its segments hold of it.
use super::timeline::{
    closed_segments, goes_back, is_data, is_generation, is_reached, last_checkpoint,
    last_generation, lemma_ends_fall, lemma_last_generation, lemma_live_end, lemma_past_boundary,
    lemma_quiet_tail, live_end, past_boundary, reached, reached_after, reached_from,
    restores_go_back, segment_ending, segments_of, starts_from, SegmentView,
};
use super::types::{Checkpoint, Record};
use crate::sift::{lemma_sift_all, lemma_sift_positions, sift};
use vstd::prelude::*;

verus! {

// ── What is left ─────────────────────────────────────────────────────

/// The elements of `t` are elements of `s`, in the same order.
pub open spec fn is_part_of(t: Seq<Record>, s: Seq<Record>) -> bool {
    exists|pos: Seq<int>| #[trigger] stands_at(t, s, pos)
}

/// The elements of `t` stand at these positions of `s`, which rise.
pub open spec fn stands_at(t: Seq<Record>, s: Seq<Record>, pos: Seq<int>) -> bool {
    &&& pos.len() == t.len()
    &&& forall|k: int|
        0 <= k < pos.len() ==> 0 <= (#[trigger] pos[k]) < s.len() && t[k] == s[pos[k]]
    &&& forall|j: int, k: int| 0 <= j < k < pos.len() ==> (#[trigger] pos[j]) < (#[trigger] pos[k])
}

/// True when the record is a restore to a checkpoint of the log.
pub open spec fn restores_within(s: Seq<Record>, r: Record) -> bool {
    match r {
        Record::Restore { target_gen, .. } => last_generation(
            s,
            s.len() as int,
            target_gen,
        ) is Some,
        _ => false,
    }
}

/// The reachable records are records of the log, in the order of the log.
pub proof fn law_reached_is_part(s: Seq<Record>)
    ensures
        is_part_of(reached(s), s),
{
    let pos = lemma_sift_positions(s, s.len() as int, |i: int| is_reached(s, i));
    assert(stands_at(reached(s), s, pos));
}

/// Where no restore goes to a checkpoint of the log, every record is reachable.
pub proof fn law_idle_restores_change_nothing(s: Seq<Record>)
    requires
        forall|i: int| 0 <= i < s.len() ==> !restores_within(s, #[trigger] s[i]),
    ensures
        reached(s) == s,
{
    assert forall|i: int| 0 <= i < s.len() implies match #[trigger] s[i] {
        Record::Restore { target_gen, .. } => last_generation(
            s,
            s.len() as int,
            target_gen,
        ) is None,
        _ => true,
    } by {
        assert(!restores_within(s, s[i]));
    }
    lemma_quiet_tail(s, 0, 0);
    lemma_sift_all(s, s.len() as int, |i: int| is_reached(s, i));
    assert(s.take(s.len() as int) =~= s);
}

proof fn lemma_restore_unreached(s: Seq<Record>, j: int)
    requires
        restores_go_back(s),
        0 <= j < s.len(),
        restores_within(s, s[j]),
    ensures
        !is_reached(s, j),
{
    lemma_live_end(s, j + 1);
    let end = live_end(s, j);
    assert(end <= j);
    lemma_ends_fall(s, 0, j, end);
    if reached_from(s, 0, j) {
        let x = choose|x: int| 0 <= x < s.len() && #[trigger] reached_after(s, x, j);
        lemma_ends_fall(s, x + 1, j, end);
    }
}

/// Of the restores only those are left that go to no checkpoint of the log.
pub proof fn law_restores_left_are_idle(s: Seq<Record>, i: int)
    requires
        restores_go_back(s),
        0 <= i < reached(s).len(),
    ensures
        !restores_within(s, reached(s)[i]),
{
    let pos = lemma_sift_positions(s, s.len() as int, |i: int| is_reached(s, i));
    if restores_within(s, s[pos[i]]) {
        lemma_restore_unreached(s, pos[i]);
    }
}

proof fn lemma_no_generation(s: Seq<Record>, n: int, g: u64, k: int)
    requires
        last_generation(s, n, g) is None,
        0 <= k < n,
    ensures
        !is_generation(s[k], g),
    decreases n,
{
    if k < n - 1 {
        lemma_no_generation(s, n - 1, g, k);
    }
}

/// What is reachable stays so: dropping what is unreachable a second time
/// drops nothing.
pub proof fn law_reached_is_settled(s: Seq<Record>)
    requires
        restores_go_back(s),
    ensures
        reached(reached(s)) == reached(s),
{
    let t = reached(s);
    let n = s.len() as int;
    let pos = lemma_sift_positions(s, n, |i: int| is_reached(s, i));
    assert forall|i: int| 0 <= i < t.len() implies !restores_within(t, #[trigger] t[i]) by {
        law_restores_left_are_idle(s, i);
        if let Record::Restore { target_gen, .. } = t[i] {
            let m = t.len() as int;
            lemma_last_generation(t, m, target_gen);
            match last_generation(t, m, target_gen) {
                Some(k) => {
                    assert(t[k] == s[pos[k]]);
                    lemma_no_generation(s, n, target_gen, pos[k]);
                },
                None => {},
            }
        }
    }
    law_idle_restores_change_nothing(t);
}

// ── Segments ─────────────────────────────────────────────────────────

proof fn lemma_end_is_past_checkpoint(s: Seq<Record>, j: int)
    requires
        0 <= j <= s.len(),
    ensures
        live_end(s, j) == s.len() || (0 < live_end(s, j) && s[live_end(s, j) - 1] is Checkpoint),
    decreases s.len() - j,
{
    if j < s.len() {
        lemma_end_is_past_checkpoint(s, j + 1);
        if let Record::Restore { target_gen, .. } = s[j] {
            lemma_last_generation(s, s.len() as int, target_gen);
        }
    }
}

/// Reachability changes only just after a checkpoint or a restore.
pub proof fn law_reached_changes_at_boundaries(s: Seq<Record>, i: int)
    requires
        0 <= i < s.len() - 1,
        is_data(s[i]),
    ensures
        is_reached(s, i) == is_reached(s, i + 1),
{
    lemma_end_is_past_checkpoint(s, 0);
    assert forall|j: int| 0 <= j < s.len() implies #[trigger] reached_after(s, j, i)
        == reached_after(s, j, i + 1) by {
        lemma_end_is_past_checkpoint(s, j + 1);
        if j == i {
            assert(goes_back(s, j) is None);
        }
    }
    if reached_from(s, 0, i) {
        let j = choose|j: int| 0 <= j < s.len() && #[trigger] reached_after(s, j, i);
        assert(reached_after(s, j, i + 1));
    }
    if reached_from(s, 0, i + 1) {
        let j = choose|j: int| 0 <= j < s.len() && #[trigger] reached_after(s, j, i + 1);
        assert(reached_after(s, j, i) == reached_after(s, j, i + 1));
    }
}

/// The records of a segment, and the boundary that closes it, are all
/// reachable or none of them is.
pub proof fn law_segment_is_reached_as_one(s: Seq<Record>, n: int, i: int)
    requires
        0 <= n <= s.len(),
        past_boundary(s, n) <= i <= n,
        i < s.len(),
    ensures
        is_reached(s, i) == segment_ending(s, n, None).reachable,
    decreases i,
{
    lemma_past_boundary(s, n);
    if past_boundary(s, n) < i {
        law_segment_is_reached_as_one(s, n, i - 1);
        law_reached_changes_at_boundaries(s, i - 1);
    }
}

/// The records of the reachable segments, one segment after the other.
pub open spec fn reachable_data(segments: Seq<SegmentView>) -> Seq<Record>
    decreases segments.len(),
{
    if segments.len() == 0 {
        Seq::empty()
    } else if segments.last().reachable {
        reachable_data(segments.drop_last()) + segments.last().records
    } else {
        reachable_data(segments.drop_last())
    }
}

/// The data records from the first checkpoint on.
pub open spec fn data_since_checkpoint(t: Seq<Record>) -> Seq<Record>
    decreases t.len(),
{
    if t.len() == 0 {
        Seq::empty()
    } else if is_data(t.last()) && last_checkpoint(t, t.len() - 1) is Some {
        data_since_checkpoint(t.drop_last()).push(t.last())
    } else {
        data_since_checkpoint(t.drop_last())
    }
}

/// What is reachable of the first `n` records.
spec fn reached_of(s: Seq<Record>, n: int) -> Seq<Record> {
    sift(s, n, |i: int| is_reached(s, i))
}

/// What is reachable of the segment that is open after the first `n` records.
spec fn open_data(s: Seq<Record>, n: int) -> Seq<Record> {
    let b = past_boundary(s, n);
    if starts_from(s, n) is Some && b < n && is_reached(s, b) {
        s.subrange(b, n)
    } else {
        Seq::empty()
    }
}

proof fn lemma_checkpoint_kept(s: Seq<Record>, t: Seq<Record>, n: int)
    requires
        0 <= n <= s.len(),
        n <= t.len(),
        forall|i: int| 0 <= i < n ==> #[trigger] s[i] == t[i],
    ensures
        last_checkpoint(s, n) == last_checkpoint(t, n),
    decreases n,
{
    if n > 0 {
        lemma_checkpoint_kept(s, t, n - 1);
    }
}

/// The first checkpoint is reachable.
proof fn lemma_first_checkpoint_reached(s: Seq<Record>, n: int)
    requires
        0 <= n < s.len(),
        starts_from(s, n) is None,
        s[n] is Checkpoint,
    ensures
        is_reached(s, n),
{
    lemma_end_is_past_checkpoint(s, 0);
    lemma_live_end(s, 0);
    let e = live_end(s, 0);
    if e <= n {
        lemma_no_checkpoint_yet(s, n, e - 1);
    }
}

proof fn lemma_no_checkpoint_yet(s: Seq<Record>, n: int, k: int)
    requires
        starts_from(s, n) is None,
        0 <= k < n <= s.len(),
    ensures
        !(s[k] is Checkpoint),
    decreases n,
{
    if k < n - 1 {
        lemma_no_checkpoint_yet(s, n - 1, k);
    }
}

/// The first `n` records.
proof fn lemma_segments_hold(s: Seq<Record>, n: int)
    requires
        0 <= n <= s.len(),
    ensures
        reachable_data(closed_segments(s, n)) + open_data(s, n) == data_since_checkpoint(
            reached_of(s, n),
        ),
        starts_from(s, n) is Some <==> last_checkpoint(
            reached_of(s, n),
            reached_of(s, n).len() as int,
        ) is Some,
    decreases n,
{
    if n == 0 {
        assert(reachable_data(closed_segments(s, 0)) + open_data(s, 0) =~= Seq::empty());
    } else {
        let m = n - 1;
        lemma_segments_hold(s, m);
        lemma_past_boundary(s, m);
        let (b, r) = (past_boundary(s, m), s[m]);
        let (t, u) = (reached_of(s, m), reached_of(s, n));
        law_segment_is_reached_as_one(s, m, m);
        assert(is_reached(s, m) == is_reached(s, b));
        if is_reached(s, m) {
            assert(u == t.push(r));
            assert(u.drop_last() =~= t);
            lemma_checkpoint_kept(t, u, t.len() as int);
        } else {
            assert(u == t);
            if starts_from(s, m) is None && r is Checkpoint {
                lemma_first_checkpoint_reached(s, m);
            }
        }
        let (c, d) = (closed_segments(s, m), closed_segments(s, n));
        if is_data(r) {
            assert(s.subrange(b, n) =~= s.subrange(b, m).push(r));
            assert(s.subrange(m, n) =~= seq![r]);
            if is_reached(s, m) && starts_from(s, m) is Some {
                assert(reachable_data(d) + open_data(s, n) =~= (reachable_data(c) + open_data(
                    s,
                    m,
                )).push(r));
            } else {
                assert(open_data(s, n) =~= open_data(s, m));
            }
        } else {
            assert(open_data(s, n) =~= Seq::empty());
            if starts_from(s, m) is Some {
                let to: Option<Checkpoint> = match r {
                    Record::Checkpoint(c) => Some(c),
                    _ => None,
                };
                assert(d.drop_last() =~= c);
                assert(d.last() == segment_ending(s, m, to));
                if b == m {
                    assert(s.subrange(b, m) =~= Seq::empty());
                }
            } else {
                assert(open_data(s, m) =~= Seq::empty());
            }
            assert(reachable_data(d) + open_data(s, n) =~= reachable_data(c) + open_data(s, m));
        }
    }
}

/// The records of the reachable segments are the data records among the
/// reachable records, from the first checkpoint on.
pub proof fn law_reachable_segments_hold_reached(s: Seq<Record>)
    ensures
        reachable_data(segments_of(s)) == data_since_checkpoint(reached(s)),
{
    let n = s.len() as int;
    lemma_segments_hold(s, n);
    let c = closed_segments(s, n);
    if starts_from(s, n) is Some && past_boundary(s, n) < n {
        assert(c.push(segment_ending(s, n, None)).drop_last() =~= c);
        if !is_reached(s, past_boundary(s, n)) {
            assert(reachable_data(c) + open_data(s, n) =~= reachable_data(c));
        }
    } else {
        assert(reachable_data(c) + open_data(s, n) =~= reachable_data(c));
    }
}

/// What follows a checkpoint starts from it, and what follows a restore starts
/// from a checkpoint of the generation that the restore goes back to, if the
/// log has one. No other record changes where things start from.
pub proof fn law_segments_start_from_checkpoints(s: Seq<Record>, n: int)
    requires
        0 < n <= s.len(),
    ensures
        s[n - 1] is Checkpoint ==> starts_from(s, n) == Some(n - 1),
        is_data(s[n - 1]) ==> starts_from(s, n) == starts_from(s, n - 1),
        s[n - 1] matches Record::Restore { target_gen, .. } ==> if starts_from(s, n - 1) is Some && (
        exists|k: int| 0 <= k < s.len() && is_generation(#[trigger] s[k], target_gen)) {
            starts_from(s, n) matches Some(f) && 0 <= f < s.len() && is_generation(s[f], target_gen)
        } else {
            starts_from(s, n) == starts_from(s, n - 1)
        },
{
    if let Record::Restore { target_gen, .. } = s[n - 1] {
        let m = s.len() as int;
        lemma_last_generation(s, m, target_gen);
        if last_generation(s, m, target_gen) is None {
            assert forall|k: int| 0 <= k < m implies !is_generation(#[trigger] s[k], target_gen) by {
                lemma_no_generation(s, m, target_gen, k);
            }
        }
    }
}

} // verus!
