//! The timeline of a log: which records restores have left reachable, and
//! the segments between checkpoints and restores.
use super::types::{Checkpoint, Record};
use crate::error::Error;
use crate::sift::{flags, keep_flagged, lemma_sift_same, sift};
use crate::text::{number, parse_number, same};
use std::collections::HashSet;
use vstd::prelude::*;

verus! {

// ── Reachability ─────────────────────────────────────────────────────

/// True when the record is the checkpoint of generation `g`.
pub open spec fn is_generation(r: Record, g: u64) -> bool {
    match r {
        Record::Checkpoint(c) => c.gen_id == g,
        _ => false,
    }
}

/// The last of the first `n` records that is the checkpoint of generation `g`.
pub open spec fn last_generation(s: Seq<Record>, n: int, g: u64) -> Option<int>
    decreases n,
{
    if n <= 0 {
        None
    } else if is_generation(s[n - 1], g) {
        Some(n - 1)
    } else {
        last_generation(s, n - 1, g)
    }
}

/// The end of the stretch in which restores still count, once those from `j`
/// on have been honoured, latest first.
pub open spec fn live_end(s: Seq<Record>, j: int) -> int
    decreases s.len() - j,
{
    if j >= s.len() {
        s.len() as int
    } else {
        match goes_back_within(s, j, live_end(s, j + 1)) {
            Some(k) => k + 1,
            None => live_end(s, j + 1),
        }
    }
}

/// The checkpoint that the record at `j` goes back to, if it is a restore
/// before `end` to a checkpoint that is there.
pub open spec fn goes_back_within(s: Seq<Record>, j: int, end: int) -> Option<int> {
    match s[j] {
        Record::Restore { target_gen, .. } => if j < end {
            last_generation(s, s.len() as int, target_gen)
        } else {
            None
        },
        _ => None,
    }
}

/// The checkpoint that the record at `j` takes the log back to, if it is a
/// restore that no later restore undoes.
pub open spec fn goes_back(s: Seq<Record>, j: int) -> Option<int> {
    goes_back_within(s, j, live_end(s, j + 1))
}

/// True when record `i` comes after the restore at `j`, and within the
/// stretch that the next restore in force leaves.
pub open spec fn reached_after(s: Seq<Record>, j: int, i: int) -> bool {
    goes_back(s, j) is Some && j < i < live_end(s, j + 1)
}

/// True when record `i` is reachable from a restore at or after `from`.
pub open spec fn reached_from(s: Seq<Record>, from: int, i: int) -> bool {
    exists|j: int| from <= j < s.len() && #[trigger] reached_after(s, j, i)
}

/// True when no restore has made record `i` unreachable.
pub open spec fn is_reached(s: Seq<Record>, i: int) -> bool {
    i < live_end(s, 0) || reached_from(s, 0, i)
}

/// The reachable records, in order.
pub open spec fn reached(s: Seq<Record>) -> Seq<Record> {
    sift(s, s.len() as int, |i: int| is_reached(s, i))
}

pub(crate) proof fn lemma_last_generation(s: Seq<Record>, n: int, g: u64)
    ensures
        match last_generation(s, n, g) {
            Some(k) => 0 <= k < n && is_generation(s[k], g),
            None => true,
        },
    decreases n,
{
    if n > 0 && !is_generation(s[n - 1], g) {
        lemma_last_generation(s, n - 1, g);
    }
}

pub(crate) proof fn lemma_live_end(s: Seq<Record>, j: int)
    requires
        0 <= j <= s.len(),
    ensures
        0 <= live_end(s, j) <= s.len(),
    decreases s.len() - j,
{
    if j < s.len() {
        lemma_live_end(s, j + 1);
        match s[j] {
            Record::Restore { target_gen, .. } => {
                lemma_last_generation(s, s.len() as int, target_gen);
            },
            _ => {},
        }
    }
}

/// The position of the last checkpoint of generation `g`.
fn find_generation(records: &[Record], g: u64) -> (r: Option<usize>)
    ensures
        match r {
            Some(k) => last_generation(records@, records@.len() as int, g) == Some(k as int),
            None => last_generation(records@, records@.len() as int, g) is None,
        },
{
    let mut i: usize = records.len();
    while i > 0
        invariant
            i <= records@.len(),
            last_generation(records@, records@.len() as int, g) == last_generation(
                records@,
                i as int,
                g,
            ),
        decreases i,
    {
        i -= 1;
        if let Record::Checkpoint(c) = &records[i] {
            if c.gen_id == g {
                return Some(i);
            }
        }
    }
    None
}

/// Sets the flags of `from..to`.
fn set_range(mask: &mut Vec<bool>, from: usize, to: usize)
    requires
        to <= old(mask)@.len(),
    ensures
        final(mask)@.len() == old(mask)@.len(),
        forall|i: int|
            0 <= i < old(mask)@.len() ==> #[trigger] final(mask)@[i] == (old(mask)@[i] || from <= i
                < to),
{
    let ghost before = mask@;
    let mut i: usize = from;
    while i < to
        invariant
            from <= i,
            from <= to ==> i <= to,
            from > to ==> i == from,
            to <= mask@.len(),
            mask@.len() == before.len(),
            forall|x: int|
                0 <= x < before.len() ==> #[trigger] mask@[x] == (before[x] || from <= x < i),
        decreases to - i,
    {
        mask.set(i, true);
        i += 1;
    }
}

/// Tells of each record whether it is reachable. Restores are walked from the
/// last to the first; one that a later restore undoes, or whose checkpoint is
/// not there, is skipped.
fn compute_reachable_mask(records: &[Record]) -> (mask: Vec<bool>)
    ensures
        mask@.len() == records@.len(),
        forall|i: int|
            0 <= i < records@.len() ==> #[trigger] mask@[i] == is_reached(records@, i),
{
    let n: usize = records.len();
    let ghost s = records@;
    let mut mask: Vec<bool> = flags(n, false);
    let mut end: usize = n;
    let mut j: usize = n;
    while j > 0
        invariant
            j <= n,
            n == s.len(),
            s == records@,
            end <= n,
            end == live_end(s, j as int),
            mask@.len() == n,
            forall|i: int| 0 <= i < n ==> #[trigger] mask@[i] == reached_from(s, j as int, i),
        decreases j,
    {
        let ghost after = j as int;
        j -= 1;
        proof {
            lemma_live_end(s, j as int);
            assert forall|i: int|
                reached_from(s, j as int, i) == (reached_from(s, after, i) || reached_after(
                    s,
                    j as int,
                    i,
                )) by {
                if reached_after(s, j as int, i) {
                    assert(reached_from(s, j as int, i));
                }
            }
        }
        if let Record::Restore { target_gen, .. } = &records[j] {
            if j < end {
                if let Some(k) = find_generation(records, *target_gen) {
                    proof {
                        lemma_last_generation(s, s.len() as int, *target_gen);
                    }
                    set_range(&mut mask, j + 1, end);
                    end = k + 1;
                }
            }
        }
    }
    set_range(&mut mask, 0, end);
    mask
}

/// The positions of the records that restores have left reachable.
pub fn reachable_indices(records: &[Record]) -> (r: HashSet<usize>)
    ensures
        forall|i: usize| #[trigger]
            r@.contains(i) == (i < records@.len() && is_reached(records@, i as int)),
{
    broadcast use vstd::std_specs::hash::group_hash_axioms;

    let mask = compute_reachable_mask(records);
    let mut r: HashSet<usize> = HashSet::new();
    let mut i: usize = 0;
    while i < mask.len()
        invariant
            i <= mask@.len(),
            mask@.len() == records@.len(),
            forall|i: int|
                0 <= i < records@.len() ==> #[trigger] mask@[i] == is_reached(records@, i),
            forall|x: usize| #[trigger]
                r@.contains(x) == (x < i && is_reached(records@, x as int)),
        decreases mask@.len() - i,
    {
        if mask[i] {
            r.insert(i);
        }
        i += 1;
    }
    r
}

/// Drops the records that restores have made unreachable.
pub fn reachable(records: Vec<Record>) -> (r: Vec<Record>)
    ensures
        r@ == reached(records@),
{
    let mask = compute_reachable_mask(records.as_slice());
    proof {
        let s = records@;
        lemma_sift_same(s, s.len() as int, |i: int| mask@[i], |i: int| is_reached(s, i));
    }
    keep_flagged(records, &mask)
}

/// Without restores every record is reachable.
pub proof fn law_no_restore_all_reached(s: Seq<Record>)
    requires
        forall|i: int| 0 <= i < s.len() ==> !((#[trigger] s[i]) is Restore),
    ensures
        reached(s) == s,
{
    lemma_no_restore(s, 0);
    crate::sift::lemma_sift_all(s, s.len() as int, |i: int| is_reached(s, i));
    assert(s.take(s.len() as int) =~= s);
}

proof fn lemma_no_restore(s: Seq<Record>, j: int)
    requires
        0 <= j <= s.len(),
        forall|i: int| 0 <= i < s.len() ==> !((#[trigger] s[i]) is Restore),
    ensures
        live_end(s, j) == s.len(),
    decreases s.len() - j,
{
    if j < s.len() {
        lemma_no_restore(s, j + 1);
        assert(!(s[j] is Restore));
    }
}

pub(crate) proof fn lemma_quiet_tail(s: Seq<Record>, j: int, m: int)
    requires
        0 <= j <= s.len(),
        m <= j,
        forall|i: int|
            m <= i < s.len() ==> match #[trigger] s[i] {
                Record::Restore { target_gen, .. } => last_generation(
                    s,
                    s.len() as int,
                    target_gen,
                ) is None,
                _ => true,
            },
    ensures
        live_end(s, j) == s.len(),
    decreases s.len() - j,
{
    if j < s.len() {
        lemma_quiet_tail(s, j + 1, m);
        assert(match s[j] {
            Record::Restore { target_gen, .. } => last_generation(
                s,
                s.len() as int,
                target_gen,
            ) is None,
            _ => true,
        });
    }
}

/// Every restore goes back to an earlier checkpoint, if to any.
pub open spec fn restores_go_back(s: Seq<Record>) -> bool {
    forall|x: int|
        0 <= x < s.len() ==> match #[trigger] s[x] {
            Record::Restore { target_gen, .. } => match last_generation(
                s,
                s.len() as int,
                target_gen,
            ) {
                Some(k) => k < x,
                None => true,
            },
            _ => true,
        }
}

/// The last restore wins: what lies between it and the checkpoint that it
/// goes back to is unreachable, and what follows it is reachable.
pub proof fn law_last_restore_wins(s: Seq<Record>, j: int, k: int, i: int)
    requires
        0 <= j < s.len(),
        s[j] is Restore,
        last_generation(s, s.len() as int, s[j]->Restore_target_gen) == Some(k),
        restores_go_back(s),
        forall|x: int| j < x < s.len() ==> !((#[trigger] s[x]) is Restore),
        0 <= i < s.len(),
    ensures
        k < i <= j ==> !is_reached(s, i),
        j < i ==> is_reached(s, i),
{
    lemma_quiet_tail(s, j + 1, j + 1);
    assert(goes_back(s, j) == Some(k));
    if j < i {
        assert(reached_after(s, j, i));
    }
    if k < i <= j {
        lemma_ends_fall(s, 0, j, k + 1);
        if reached_from(s, 0, i) {
            let x = choose|x: int| 0 <= x < s.len() && #[trigger] reached_after(s, x, i);
            assert(x < j);
            lemma_ends_fall(s, x + 1, j, k + 1);
            assert(false);
        }
    }
}

pub(crate) proof fn lemma_ends_fall(s: Seq<Record>, x: int, j: int, end: int)
    requires
        0 <= x <= j < s.len(),
        live_end(s, j) == end,
        restores_go_back(s),
    ensures
        live_end(s, x) <= end,
    decreases j - x,
{
    if x < j {
        lemma_ends_fall(s, x + 1, j, end);
        assert(match s[x] {
            Record::Restore { target_gen, .. } => match last_generation(
                s,
                s.len() as int,
                target_gen,
            ) {
                Some(k) => k < x,
                None => true,
            },
            _ => true,
        });
    }
}

/// No two checkpoints have one generation.
pub open spec fn generations_differ(s: Seq<Record>) -> bool {
    forall|i: int, j: int|
        0 <= i < j < s.len() && (#[trigger] s[i]) is Checkpoint && (#[trigger] s[j]) is Checkpoint
            ==> s[i]->Checkpoint_0.gen_id != s[j]->Checkpoint_0.gen_id
}

proof fn lemma_generation_at(s: Seq<Record>, n: int, k: int, g: u64)
    requires
        generations_differ(s),
        0 <= k < n <= s.len(),
        is_generation(s[k], g),
    ensures
        last_generation(s, n, g) == Some(k),
    decreases n,
{
    if k < n - 1 {
        assert(!is_generation(s[n - 1], g));
        lemma_generation_at(s, n - 1, k, g);
    }
}

proof fn lemma_generation_prefix(s: Seq<Record>, t: Seq<Record>, n: int, g: u64)
    requires
        0 <= n <= s.len(),
        n <= t.len(),
        forall|i: int| 0 <= i < n ==> #[trigger] s[i] == t[i],
    ensures
        last_generation(s, n, g) == last_generation(t, n, g),
    decreases n,
{
    if n > 0 {
        lemma_generation_prefix(s, t, n - 1, g);
        assert(s[n - 1] == t[n - 1]);
    }
}

/// The log `s` with a restore to the checkpoint at `k` appended.
pub open spec fn restored(s: Seq<Record>, k: int, gen_id: u64) -> Seq<Record> {
    s.push(Record::Restore { gen_id, target_gen: s[k]->Checkpoint_0.gen_id })
}

proof fn lemma_restored_ends(s: Seq<Record>, k: int, gen_id: u64, j: int)
    requires
        restores_go_back(s),
        generations_differ(s),
        0 <= k < s.len(),
        s[k] is Checkpoint,
        0 <= j <= s.len(),
    ensures
        ({
            let r = restored(s, k, gen_id);
            let p = s.take(k + 1);
            &&& j > k ==> live_end(r, j) == k + 1
            &&& k < j < s.len() ==> goes_back(r, j) is None
            &&& j <= k ==> live_end(r, j) == live_end(p, j) && live_end(r, j) <= k + 1
            &&& j <= k ==> goes_back(r, j) == goes_back(p, j)
        }),
    decreases s.len() - j,
{
    let r = restored(s, k, gen_id);
    let p = s.take(k + 1);
    let n = s.len() as int;
    if j == n {
        assert(live_end(r, n + 1) == n + 1);
        assert(generations_differ(r)) by {
            assert forall|a: int, b: int|
                0 <= a < b < r.len() && (#[trigger] r[a]) is Checkpoint && (#[trigger] r[b])
                    is Checkpoint implies r[a]->Checkpoint_0.gen_id
                != r[b]->Checkpoint_0.gen_id by {
                assert(r[a] == s[a] && r[b] == s[b]);
            }
        }
        assert(is_generation(r[k], s[k]->Checkpoint_0.gen_id));
        lemma_generation_at(r, n + 1, k, s[k]->Checkpoint_0.gen_id);
    } else {
        lemma_restored_ends(s, k, gen_id, j + 1);
        assert(r[j] == s[j]);
        if j <= k {
            assert(p[j] == s[j]);
            assert(live_end(p, k + 1) == k + 1);
            match s[j] {
                Record::Restore { target_gen, .. } => {
                    lemma_generation_prefix(r, s, n, target_gen);
                    lemma_generation_prefix(s, p, k + 1, target_gen);
                    assert(match last_generation(s, n, target_gen) {
                        Some(x) => x < j,
                        None => true,
                    });
                    lemma_last_generation(s, n, target_gen);
                    lemma_last_generation(p, k + 1, target_gen);
                    match last_generation(s, n, target_gen) {
                        Some(x) => {
                            lemma_generation_at(s, k + 1, x, target_gen);
                        },
                        None => {
                            match last_generation(p, k + 1, target_gen) {
                                Some(x) => {
                                    assert(s[x] == p[x]);
                                    lemma_generation_at(s, n, x, target_gen);
                                },
                                None => {},
                            }
                        },
                    }
                },
                _ => {},
            }
        }
    }
}

proof fn lemma_sift_tail(s: Seq<Record>, m: int, n: int, keep: spec_fn(int) -> bool)
    requires
        0 <= m <= n,
        forall|i: int| m <= i < n ==> !#[trigger] keep(i),
    ensures
        sift(s, n, keep) == sift(s, m, keep),
    decreases n - m,
{
    if m < n {
        lemma_sift_tail(s, m, n - 1, keep);
    }
}

proof fn lemma_sift_two(
    s: Seq<Record>,
    t: Seq<Record>,
    n: int,
    a: spec_fn(int) -> bool,
    b: spec_fn(int) -> bool,
)
    requires
        forall|i: int| 0 <= i < n ==> #[trigger] s[i] == t[i],
        forall|i: int| 0 <= i < n ==> #[trigger] a(i) == b(i),
    ensures
        sift(s, n, a) == sift(t, n, b),
    decreases n,
{
    if n > 0 {
        lemma_sift_two(s, t, n - 1, a, b);
        assert(a(n - 1) == b(n - 1));
    }
}

/// A restore to a checkpoint gives back what was reachable there: after it
/// exactly those records are reachable that were so in the log up to the checkpoint.
pub proof fn law_restore_gives_back(s: Seq<Record>, k: int, gen_id: u64)
    requires
        restores_go_back(s),
        generations_differ(s),
        0 <= k < s.len(),
        s[k] is Checkpoint,
    ensures
        reached(restored(s, k, gen_id)) == reached(s.take(k + 1)),
{
    let r = restored(s, k, gen_id);
    let p = s.take(k + 1);
    let n = s.len() as int;
    lemma_restored_ends(s, k, gen_id, 0);
    lemma_restored_ends(s, k, gen_id, n);
    assert(live_end(r, n + 1) == n + 1);
    assert(live_end(p, k + 1) == k + 1);
    let a = |i: int| is_reached(r, i);
    let b = |i: int| is_reached(p, i);
    assert forall|j: int, i: int| 0 <= j <= k implies reached_after(r, j, i)
        == #[trigger] reached_after(p, j, i) && (reached_after(r, j, i) ==> i <= k) by {
        lemma_restored_ends(s, k, gen_id, j);
        lemma_restored_ends(s, k, gen_id, j + 1);
    }
    assert forall|j: int, i: int| k < j <= n && 0 <= i <= n implies !#[trigger] reached_after(
        r,
        j,
        i,
    ) by {
        lemma_restored_ends(s, k, gen_id, j);
    }
    assert forall|i: int| 0 <= i <= n implies #[trigger] a(i) == (i <= k && b(i)) by {
        if reached_from(r, 0, i) {
            let j = choose|j: int| 0 <= j < r.len() && #[trigger] reached_after(r, j, i);
            assert(j <= k);
            assert(reached_after(p, j, i));
        }
        if reached_from(p, 0, i) {
            let j = choose|j: int| 0 <= j < p.len() && #[trigger] reached_after(p, j, i);
            assert(reached_after(r, j, i));
        }
    }
    assert forall|i: int| k + 1 <= i < n + 1 implies !#[trigger] a(i) by {}
    lemma_sift_tail(r, k + 1, n + 1, a);
    lemma_sift_two(r, p, k + 1, a, b);
}

// ── Checkpoints by name or number ────────────────────────────────────

/// The first of the first `n` records that is the checkpoint of generation `g`.
pub open spec fn first_generation(s: Seq<Record>, n: int, g: u64) -> Option<int>
    decreases n,
{
    if n <= 0 {
        None
    } else {
        match first_generation(s, n - 1, g) {
            Some(i) => Some(i),
            None => if is_generation(s[n - 1], g) {
                Some(n - 1)
            } else {
                None
            },
        }
    }
}

/// True when the record is a checkpoint with this name.
pub open spec fn is_named(r: Record, name: Seq<char>) -> bool {
    match r {
        Record::Checkpoint(c) => c.name@ == name,
        _ => false,
    }
}

/// The last of the first `n` records that is a checkpoint with this name.
pub open spec fn last_named(s: Seq<Record>, n: int, name: Seq<char>) -> Option<int>
    decreases n,
{
    if n <= 0 {
        None
    } else if is_named(s[n - 1], name) {
        Some(n - 1)
    } else {
        last_named(s, n - 1, name)
    }
}

/// The position of the checkpoint that a name or number stands for: the first
/// with that generation, else the last with that name.
pub open spec fn checkpoint_position(s: Seq<Record>, name_or_id: Seq<char>) -> Option<int> {
    let by_number = match number(name_or_id) {
        Some(g) => first_generation(s, s.len() as int, g),
        None => None,
    };
    match by_number {
        Some(i) => Some(i),
        None => last_named(s, s.len() as int, name_or_id),
    }
}

pub proof fn lemma_checkpoint_position(s: Seq<Record>, name_or_id: Seq<char>)
    ensures
        match checkpoint_position(s, name_or_id) {
            Some(i) => 0 <= i < s.len() && s[i] is Checkpoint,
            None => true,
        },
{
    if number(name_or_id) is Some {
        lemma_first_generation(s, s.len() as int, number(name_or_id)->0);
    }
    lemma_last_named(s, s.len() as int, name_or_id);
}

proof fn lemma_first_generation(s: Seq<Record>, n: int, g: u64)
    ensures
        match first_generation(s, n, g) {
            Some(i) => 0 <= i < n && is_generation(s[i], g),
            None => true,
        },
    decreases n,
{
    if n > 0 {
        lemma_first_generation(s, n - 1, g);
    }
}

proof fn lemma_last_named(s: Seq<Record>, n: int, name: Seq<char>)
    ensures
        match last_named(s, n, name) {
            Some(i) => 0 <= i < n && is_named(s[i], name),
            None => true,
        },
    decreases n,
{
    if n > 0 && !is_named(s[n - 1], name) {
        lemma_last_named(s, n - 1, name);
    }
}

/// A first match, once found, stays the first match.
proof fn lemma_first_generation_stays(s: Seq<Record>, i: int, n: int, g: u64)
    requires
        0 <= i < n <= s.len(),
        first_generation(s, i, g) is None,
        is_generation(s[i], g),
    ensures
        first_generation(s, n, g) == Some(i),
    decreases n,
{
    if n > i + 1 {
        lemma_first_generation_stays(s, i, n - 1, g);
    }
}

/// Finds a checkpoint by generation or name. A number is tried as a
/// generation first; of several checkpoints with one name the last is meant.
pub fn find_checkpoint_index(records: &[Record], name_or_id: &str) -> (r: Result<usize, Error>)
    ensures
        match (r, checkpoint_position(records@, name_or_id@)) {
            (Ok(i), Some(j)) => i == j,
            (Err(Error::CheckpointNotFound(n)), None) => n@ == name_or_id@,
            _ => false,
        },
{
    let ghost s = records@;
    if let Some(g) = parse_number(name_or_id) {
        let mut i: usize = 0;
        while i < records.len()
            invariant
                i <= records@.len(),
                s == records@,
                number(name_or_id@) == Some(g),
                first_generation(s, i as int, g) is None,
            decreases records@.len() - i,
        {
            if let Record::Checkpoint(c) = &records[i] {
                if c.gen_id == g {
                    proof {
                        lemma_first_generation_stays(s, i as int, s.len() as int, g);
                    }
                    return Ok(i);
                }
            }
            i += 1;
        }
    }
    let mut i: usize = records.len();
    while i > 0
        invariant
            i <= records@.len(),
            s == records@,
            checkpoint_position(s, name_or_id@) == last_named(s, i as int, name_or_id@),
        decreases i,
    {
        i -= 1;
        if let Record::Checkpoint(c) = &records[i] {
            if same(c.name.as_str(), name_or_id) {
                return Ok(i);
            }
        }
    }
    Err(Error::CheckpointNotFound(name_or_id.to_owned()))
}

// ── Slices ───────────────────────────────────────────────────────────

/// The position of the last checkpoint among the first `n` records, or 0.
pub open spec fn last_checkpoint_or_start(s: Seq<Record>, n: int) -> int
    decreases n,
{
    if n <= 0 {
        0
    } else if s[n - 1] is Checkpoint {
        n - 1
    } else {
        last_checkpoint_or_start(s, n - 1)
    }
}

/// The records of a query, or the name that no checkpoint has. `at` asks for
/// the stretch from the checkpoint before up to the one named; `to` for the
/// records up to a checkpoint, and `from` for those from one on, both including it.
pub open spec fn sliced(
    s: Seq<Record>,
    at: Option<&str>,
    from: Option<&str>,
    to: Option<&str>,
) -> Result<Seq<Record>, Seq<char>> {
    match at {
        Some(name) => match checkpoint_position(s, name@) {
            Some(k) => Ok(s.subrange(last_checkpoint_or_start(s, k), k + 1)),
            None => Err(name@),
        },
        None => match cut_after(s, to) {
            Ok(t) => cut_before(t, from),
            Err(n) => Err(n),
        },
    }
}

/// The records up to and including the checkpoint named, or all of them.
pub open spec fn cut_after(s: Seq<Record>, to: Option<&str>) -> Result<Seq<Record>, Seq<char>> {
    match to {
        Some(name) => match checkpoint_position(s, name@) {
            Some(k) => Ok(s.take(k + 1)),
            None => Err(name@),
        },
        None => Ok(s),
    }
}

/// The records from the checkpoint named on, or all of them.
pub open spec fn cut_before(s: Seq<Record>, from: Option<&str>) -> Result<Seq<Record>, Seq<char>> {
    match from {
        Some(name) => match checkpoint_position(s, name@) {
            Some(k) => Ok(s.skip(k)),
            None => Err(name@),
        },
        None => Ok(s),
    }
}

/// The position of the last checkpoint before `k`, or 0.
fn checkpoint_before(records: &Vec<Record>, k: usize) -> (r: usize)
    requires
        k <= records@.len(),
    ensures
        r == last_checkpoint_or_start(records@, k as int),
        r <= k,
{
    let mut i: usize = k;
    while i > 0
        invariant
            i <= k <= records@.len(),
            last_checkpoint_or_start(records@, k as int) == last_checkpoint_or_start(
                records@,
                i as int,
            ),
        decreases i,
    {
        i -= 1;
        if let Record::Checkpoint(_) = &records[i] {
            return i;
        }
    }
    0
}

/// Takes the records of a query. The slice holds the checkpoints at its two ends.
pub fn slice_records(
    records: Vec<Record>,
    at: Option<&str>,
    from: Option<&str>,
    to: Option<&str>,
) -> (r: Result<Vec<Record>, Error>)
    ensures
        match (r, sliced(records@, at, from, to)) {
            (Ok(v), Ok(s)) => v@ == s,
            (Err(Error::CheckpointNotFound(n)), Err(m)) => n@ == m,
            _ => false,
        },
{
    let ghost s = records@;
    let mut records = records;
    let n: usize = records.len();
    if let Some(name) = at {
        let k: usize = match find_checkpoint_index(records.as_slice(), name) {
            Ok(i) => i,
            Err(e) => return Err(e),
        };
        proof {
            lemma_checkpoint_position(s, name@);
        }
        let start: usize = checkpoint_before(&records, k);
        records.truncate(k + 1);
        let r = records.split_off(start);
        proof {
            assert(r@ =~= s.subrange(start as int, k + 1));
        }
        return Ok(r);
    }
    if let Some(name) = to {
        let k: usize = match find_checkpoint_index(records.as_slice(), name) {
            Ok(i) => i,
            Err(e) => return Err(e),
        };
        proof {
            lemma_checkpoint_position(s, name@);
        }
        records.truncate(k + 1);
        proof {
            assert(records@ =~= s.take(k + 1));
        }
    }
    if let Some(name) = from {
        let ghost t = records@;
        let k: usize = match find_checkpoint_index(records.as_slice(), name) {
            Ok(i) => i,
            Err(e) => return Err(e),
        };
        proof {
            lemma_checkpoint_position(t, name@);
        }
        let r = records.split_off(k);
        proof {
            assert(r@ =~= t.skip(k as int));
        }
        return Ok(r);
    }
    Ok(records)
}

// ── Segments ─────────────────────────────────────────────────────────

/// The records between two boundaries, which are checkpoints and restores.
#[derive(Debug)]
pub struct Segment {
    /// The checkpoint that the records start from: the one at the start, or
    /// the one that the restore at the start goes back to.
    pub from: Checkpoint,
    /// The checkpoint at the end; `None` where a restore or the log's end is there.
    pub to: Option<Checkpoint>,
    /// Whether restores have left the segment reachable.
    pub reachable: bool,
    /// The records in between: no checkpoints and no restores.
    pub records: Vec<Record>,
}

/// A segment as a mathematical value.
pub struct SegmentView {
    pub from: Checkpoint,
    pub to: Option<Checkpoint>,
    pub reachable: bool,
    pub records: Seq<Record>,
}

impl View for Segment {
    type V = SegmentView;

    open spec fn view(&self) -> SegmentView {
        SegmentView {
            from: self.from,
            to: self.to,
            reachable: self.reachable,
            records: self.records@,
        }
    }
}

/// The segments as mathematical values.
pub open spec fn segment_views(s: Seq<Segment>) -> Seq<SegmentView> {
    Seq::new(s.len(), |i: int| s[i]@)
}

/// The position of the last checkpoint among the first `n` records.
pub open spec fn last_checkpoint(s: Seq<Record>, n: int) -> Option<int>
    decreases n,
{
    if n <= 0 {
        None
    } else if s[n - 1] is Checkpoint {
        Some(n - 1)
    } else {
        last_checkpoint(s, n - 1)
    }
}

/// True for a record that is neither a checkpoint nor a restore.
pub open spec fn is_data(r: Record) -> bool {
    !(r is Checkpoint) && !(r is Restore)
}

/// The position of the checkpoint that what follows the first `n` records
/// starts from: the last checkpoint, or the one that a restore after it goes
/// back to. A restore to a checkpoint that is not there changes nothing.
pub open spec fn starts_from(s: Seq<Record>, n: int) -> Option<int>
    decreases n,
{
    if n <= 0 {
        None
    } else {
        match s[n - 1] {
            Record::Checkpoint(_) => Some(n - 1),
            Record::Restore { target_gen, .. } => match (
                starts_from(s, n - 1),
                last_generation(s, s.len() as int, target_gen),
            ) {
                (Some(_), Some(k)) => Some(k),
                (f, _) => f,
            },
            _ => starts_from(s, n - 1),
        }
    }
}

/// The position past the last boundary among the first `n` records, or 0.
pub open spec fn past_boundary(s: Seq<Record>, n: int) -> int
    decreases n,
{
    if n <= 0 {
        0
    } else if is_data(s[n - 1]) {
        past_boundary(s, n - 1)
    } else {
        n
    }
}

/// The segment that ends at position `n`: the records from the last boundary
/// before it on. They are all reachable, or none of them is, and so is what
/// stands at the end where there are none.
pub open spec fn segment_ending(s: Seq<Record>, n: int, to: Option<Checkpoint>) -> SegmentView {
    let b = past_boundary(s, n);
    SegmentView {
        from: s[starts_from(s, n)->0]->Checkpoint_0,
        to,
        reachable: is_reached(s, b),
        records: s.subrange(b, n),
    }
}

/// The segments that the boundaries among the first `n` records close. The
/// first checkpoint opens the first one.
pub open spec fn closed_segments(s: Seq<Record>, n: int) -> Seq<SegmentView>
    decreases n,
{
    if n <= 0 {
        Seq::empty()
    } else if is_data(s[n - 1]) || starts_from(s, n - 1) is None {
        closed_segments(s, n - 1)
    } else {
        closed_segments(s, n - 1).push(
            segment_ending(
                s,
                n - 1,
                match s[n - 1] {
                    Record::Checkpoint(c) => Some(c),
                    _ => None,
                },
            ),
        )
    }
}

/// The segments of a log: one for each two boundaries in a row from the first
/// checkpoint on, and one for what follows the last boundary, if anything does.
pub open spec fn segments_of(s: Seq<Record>) -> Seq<SegmentView> {
    let n = s.len() as int;
    if starts_from(s, n) is Some && past_boundary(s, n) < n {
        closed_segments(s, n).push(segment_ending(s, n, None))
    } else {
        closed_segments(s, n)
    }
}

pub(crate) proof fn lemma_past_boundary(s: Seq<Record>, n: int)
    requires
        0 <= n <= s.len(),
    ensures
        0 <= past_boundary(s, n) <= n,
        forall|i: int| past_boundary(s, n) <= i < n ==> is_data(#[trigger] s[i]),
    decreases n,
{
    if n > 0 {
        lemma_past_boundary(s, n - 1);
    }
}

/// A log cut into segments, with the reachability of each record.
#[derive(Debug)]
pub struct Timeline {
    /// All records, as they stand in the log.
    pub all_records: Vec<Record>,
    pub segments: Vec<Segment>,
    /// Whether each record is reachable.
    pub reachable_mask: Vec<bool>,
}

impl Timeline {
    /// The segments and the mask are those of the records.
    pub open spec fn wf(&self) -> bool {
        &&& segment_views(self.segments@) == segments_of(self.all_records@)
        &&& self.reachable_mask@.len() == self.all_records@.len()
        &&& forall|i: int|
            0 <= i < self.all_records@.len() ==> #[trigger] self.reachable_mask@[i] == is_reached(
                self.all_records@,
                i,
            )
    }

    /// Builds the timeline of a log. Segments are cut at checkpoints and at
    /// restores; records before the first checkpoint are in none.
    pub fn new(records: Vec<Record>) -> (r: Self)
        ensures
            r.all_records@ == records@,
            r.wf(),
    {
        let mask = compute_reachable_mask(records.as_slice());
        let ghost s = records@;
        let mut segments: Vec<Segment> = Vec::new();
        let mut current: Vec<Record> = Vec::new();
        let mut open: Option<Checkpoint> = None;
        let mut start: usize = 0;
        let mut i: usize = 0;
        while i < records.len()
            invariant
                i <= records@.len(),
                s == records@,
                mask@.len() == s.len(),
                forall|i: int| 0 <= i < s.len() ==> #[trigger] mask@[i] == is_reached(s, i),
                start == past_boundary(s, i as int),
                start <= i,
                match open {
                    Some(c) => starts_from(s, i as int) is Some && s[starts_from(
                        s,
                        i as int,
                    )->0] == Record::Checkpoint(c) && current@ == s.subrange(
                        start as int,
                        i as int,
                    ),
                    None => starts_from(s, i as int) is None && current@.len() == 0,
                },
                segment_views(segments@) == closed_segments(s, i as int),
            decreases records@.len() - i,
        {
            let ghost before = segments@;
            assert(s.subrange(i + 1, i + 1) =~= Seq::<Record>::empty());
            match &records[i] {
                Record::Checkpoint(c) => {
                    if let Some(from) = open {
                        segments.push(
                            Segment {
                                from,
                                to: Some(c.clone()),
                                reachable: mask[start],
                                records: current,
                            },
                        );
                        proof {
                            assert(segment_views(segments@) =~= segment_views(before).push(
                                segment_ending(s, i as int, Some(*c)),
                            ));
                        }
                        current = Vec::new();
                    }
                    open = Some(c.clone());
                    start = i + 1;
                },
                Record::Restore { target_gen, .. } => {
                    if let Some(from) = open {
                        segments.push(
                            Segment {
                                from: from.clone(),
                                to: None,
                                reachable: mask[start],
                                records: current,
                            },
                        );
                        proof {
                            assert(segment_views(segments@) =~= segment_views(before).push(
                                segment_ending(s, i as int, None),
                            ));
                            lemma_last_generation(s, s.len() as int, *target_gen);
                        }
                        current = Vec::new();
                        open = Some(
                            match find_generation(records.as_slice(), *target_gen) {
                                Some(k) => match &records[k] {
                                    Record::Checkpoint(c) => c.clone(),
                                    _ => from,
                                },
                                None => from,
                            },
                        );
                    }
                    start = i + 1;
                },
                other => {
                    if open.is_some() {
                        current.push(other.clone());
                        assert(current@ =~= s.subrange(start as int, i + 1));
                    }
                },
            }
            i += 1;
        }
        let ghost before = segments@;
        if current.len() > 0 {
            if let Some(from) = open {
                segments.push(
                    Segment { from, to: None, reachable: mask[start], records: current },
                );
                proof {
                    assert(segment_views(segments@) =~= segment_views(before).push(
                        segment_ending(s, s.len() as int, None),
                    ));
                }
            }
        }
        Timeline { all_records: records, segments, reachable_mask: mask }
    }

    /// The segments that restores have left reachable.
    pub fn reachable(&self) -> (r: Vec<&Segment>)
        ensures
            r@.len() == sift(
                self.segments@,
                self.segments@.len() as int,
                |i: int| self.segments@[i].reachable,
            ).len(),
            forall|k: int|
                0 <= k < r@.len() ==> *(#[trigger] r@[k]) == sift(
                    self.segments@,
                    self.segments@.len() as int,
                    |i: int| self.segments@[i].reachable,
                )[k],
    {
        let ghost keep = |i: int| self.segments@[i].reachable;
        let mut r: Vec<&Segment> = Vec::new();
        let mut i: usize = 0;
        while i < self.segments.len()
            invariant
                i <= self.segments@.len(),
                keep == (|i: int| self.segments@[i].reachable),
                r@.len() == sift(self.segments@, i as int, keep).len(),
                forall|k: int|
                    0 <= k < r@.len() ==> *(#[trigger] r@[k]) == sift(
                        self.segments@,
                        i as int,
                        keep,
                    )[k],
            decreases self.segments@.len() - i,
        {
            if self.segments[i].reachable {
                r.push(&self.segments[i]);
            }
            i += 1;
        }
        r
    }

    /// The reachable records, checkpoints included.
    pub fn reachable_records(&self) -> (r: Vec<Record>)
        requires
            self.wf(),
        ensures
            r@ == reached(self.all_records@),
    {
        let ghost s = self.all_records@;
        let ghost keep = |i: int| is_reached(s, i);
        let mut r: Vec<Record> = Vec::new();
        let mut i: usize = 0;
        while i < self.all_records.len()
            invariant
                i <= s.len(),
                s == self.all_records@,
                self.wf(),
                keep == (|i: int| is_reached(s, i)),
                r@ == sift(s, i as int, keep),
            decreases s.len() - i,
        {
            if self.reachable_mask[i] {
                r.push(self.all_records[i].clone());
            }
            i += 1;
        }
        r
    }

    /// Finds a checkpoint by generation or name, reachable or not.
    pub fn find_checkpoint(&self, name_or_id: &str) -> (r: Result<(usize, &Checkpoint), Error>)
        ensures
            match (r, checkpoint_position(self.all_records@, name_or_id@)) {
                (Ok((i, c)), Some(j)) => i == j && self.all_records@[j] == Record::Checkpoint(*c),
                (Err(Error::CheckpointNotFound(n)), None) => n@ == name_or_id@,
                _ => false,
            },
    {
        let i: usize = match find_checkpoint_index(self.all_records.as_slice(), name_or_id) {
            Ok(i) => i,
            Err(e) => return Err(e),
        };
        proof {
            lemma_checkpoint_position(self.all_records@, name_or_id@);
        }
        match &self.all_records[i] {
            Record::Checkpoint(c) => Ok((i, c)),
            _ => Err(Error::CheckpointNotFound(name_or_id.to_owned())),
        }
    }

    /// Takes the records of a query from the reachable records.
    pub fn slice(
        &self,
        at: Option<&str>,
        from: Option<&str>,
        to: Option<&str>,
    ) -> (r: Result<Vec<Record>, Error>)
        requires
            self.wf(),
        ensures
            match (r, sliced(reached(self.all_records@), at, from, to)) {
                (Ok(v), Ok(s)) => v@ == s,
                (Err(Error::CheckpointNotFound(n)), Err(m)) => n@ == m,
                _ => false,
            },
    {
        slice_records(self.reachable_records(), at, from, to)
    }

    /// Whether the record at this position is reachable; `false` past the end.
    pub fn is_reachable(&self, idx: usize) -> (r: bool)
        requires
            self.wf(),
        ensures
            r == (idx < self.all_records@.len() && is_reached(self.all_records@, idx as int)),
    {
        idx < self.reachable_mask.len() && self.reachable_mask[idx]
    }

    /// All records, as they stand in the log.
    pub fn all_records(&self) -> (r: &[Record])
        ensures
            r@ == self.all_records@,
    {
        self.all_records.as_slice()
    }
}

} // verus!
