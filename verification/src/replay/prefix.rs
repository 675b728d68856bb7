//! That the live prefix of a journal does not depend on what comes after it.
use super::liveness::{checkpoint_in, kills, killed_from, live_end, live_prefix_of, survives};
use super::markers::{generation, last_named, lookup, numbered};
use super::segment::{
    closed_segments, is_marker, markers_of, open_segment, segment_views, segments_of,
    SegmentedJournal,
};
use super::types::{Record, Segment};
use crate::sift::sift;
use crate::text::number;
use vstd::prelude::*;

verus! {

/// The markers carry the generations 1, 2, 3 and so on.
pub open spec fn counts_up(ms: Seq<Record>) -> bool {
    forall|i: int| 0 <= i < ms.len() ==> generation(#[trigger] ms[i]) == i + 1
}

/// No checkpoint among the records goes by this name or number.
pub open spec fn never_called(s: Seq<Record>, name_or_id: Seq<char>) -> bool {
    forall|i: int|
        0 <= i < s.len() ==> match #[trigger] s[i] {
            Record::Checkpoint { gen_id, name } => name@ != name_or_id && number(name_or_id)
                != Some(gen_id),
            _ => true,
        }
}

// ── Records in front of others ───────────────────────────────────────

proof fn lemma_sift_both(
    s: Seq<Record>,
    t: Seq<Record>,
    n: int,
    a: spec_fn(int) -> bool,
    b: spec_fn(int) -> bool,
)
    requires
        forall|i: int| 0 <= i < n ==> #[trigger] s[i] == t[i],
        forall|i: int| 0 <= i < n ==> #[trigger] a(i) == b(i),
    ensures
        sift(s, n, a) == sift(t, n, b),
    decreases n,
{
    if n > 0 {
        lemma_sift_both(s, t, n - 1, a, b);
        assert(a(n - 1) == b(n - 1));
    }
}

proof fn lemma_markers_push(s: Seq<Record>, r: Record)
    ensures
        markers_of(s.push(r)) == if is_marker(r) {
            markers_of(s).push(r)
        } else {
            markers_of(s)
        },
{
    let t = s.push(r);
    lemma_sift_both(
        s,
        t,
        s.len() as int,
        |i: int| is_marker(s[i]),
        |i: int| is_marker(t[i]),
    );
}

proof fn lemma_segments_front(s: Seq<Record>, t: Seq<Record>, n: int)
    requires
        0 <= n <= s.len(),
        n <= t.len(),
        forall|i: int| 0 <= i < n ==> #[trigger] s[i] == t[i],
    ensures
        open_segment(s, n) == open_segment(t, n),
        closed_segments(s, n) == closed_segments(t, n),
    decreases n,
{
    if n > 0 {
        lemma_segments_front(s, t, n - 1);
        assert(s[n - 1] == t[n - 1]);
    }
}

/// Records that are appended add markers and closed segments, and leave those
/// before as they are.
proof fn lemma_appended(s: Seq<Record>, more: Seq<Record>, name_or_id: Seq<char>)
    requires
        never_called(more, name_or_id),
    ensures
        ({
            let t = s + more;
            let (a, b) = (markers_of(s), markers_of(t));
            let (c, d) = (closed_segments(s, s.len() as int), closed_segments(t, t.len() as int));
            &&& a.len() == c.len() && b.len() == d.len()
            &&& a.len() <= b.len() && b.take(a.len() as int) == a
            &&& d.take(c.len() as int) == c
            &&& forall|i: int|
                a.len() <= i < b.len() ==> match #[trigger] b[i] {
                    Record::Checkpoint { gen_id, name } => name@ != name_or_id && number(
                        name_or_id,
                    ) != Some(gen_id),
                    _ => true,
                }
        }),
    decreases more.len(),
{
    let t = s + more;
    if more.len() == 0 {
        assert(t =~= s);
        lemma_counts(s, s.len() as int);
        assert(markers_of(s).take(markers_of(s).len() as int) =~= markers_of(s));
        let c = closed_segments(s, s.len() as int);
        assert(c.take(c.len() as int) =~= c);
    } else {
        let less = more.drop_last();
        assert(never_called(less, name_or_id)) by {
            assert forall|i: int| 0 <= i < less.len() implies match #[trigger] less[i] {
                Record::Checkpoint { gen_id, name } => name@ != name_or_id && number(name_or_id)
                    != Some(gen_id),
                _ => true,
            } by {
                assert(less[i] == more[i]);
            }
        }
        lemma_appended(s, less, name_or_id);
        let u = s + less;
        let r = more.last();
        assert(t =~= u.push(r));
        lemma_markers_push(u, r);
        lemma_segments_front(u, t, u.len() as int);
        let (a, b) = (markers_of(s), markers_of(t));
        let (c, d) = (closed_segments(s, s.len() as int), closed_segments(t, t.len() as int));
        assert(b.take(a.len() as int) =~= markers_of(u).take(a.len() as int));
        assert(d.take(c.len() as int) =~= closed_segments(u, u.len() as int).take(c.len() as int));
        assert(more[more.len() - 1] == r);
    }
}

proof fn lemma_counts(s: Seq<Record>, n: int)
    requires
        0 <= n <= s.len(),
    ensures
        closed_segments(s, n).len() == sift(s, n, |i: int| is_marker(s[i])).len(),
    decreases n,
{
    if n > 0 {
        lemma_counts(s, n - 1);
    }
}

// ── The lookup ───────────────────────────────────────────────────────

proof fn lemma_named_in_front(a: Seq<Record>, b: Seq<Record>, n: int, name: Seq<char>)
    requires
        a.len() <= n <= b.len(),
        b.take(a.len() as int) == a,
        forall|i: int|
            a.len() <= i < b.len() ==> match #[trigger] b[i] {
                Record::Checkpoint { name: m, .. } => m@ != name,
                _ => true,
            },
    ensures
        last_named(b, n, name) == last_named(a, a.len() as int, name),
    decreases n,
{
    if n > a.len() {
        assert(match b[n - 1] {
            Record::Checkpoint { name: m, .. } => m@ != name,
            _ => true,
        });
        lemma_named_in_front(a, b, n - 1, name);
    } else {
        lemma_named_same(a, b, n, name);
    }
}

proof fn lemma_named_same(a: Seq<Record>, b: Seq<Record>, n: int, name: Seq<char>)
    requires
        0 <= n <= a.len() <= b.len(),
        b.take(a.len() as int) == a,
    ensures
        last_named(b, n, name) == last_named(a, n, name),
        last_named(a, n, name) matches Some(i) ==> 0 <= i < n && a[i] is Checkpoint,
    decreases n,
{
    if n > 0 {
        lemma_named_same(a, b, n - 1, name);
        assert(b.take(a.len() as int)[n - 1] == b[n - 1]);
    }
}

proof fn lemma_lookup(a: Seq<Record>, b: Seq<Record>, name_or_id: Seq<char>)
    requires
        a.len() <= b.len(),
        b.take(a.len() as int) == a,
        counts_up(b),
        forall|i: int|
            a.len() <= i < b.len() ==> match #[trigger] b[i] {
                Record::Checkpoint { gen_id, name } => name@ != name_or_id && number(name_or_id)
                    != Some(gen_id),
                _ => true,
            },
    ensures
        lookup(b, name_or_id) == lookup(a, name_or_id),
        lookup(a, name_or_id) matches Some(g) ==> 1 <= g <= a.len(),
{
    assert forall|i: int| 0 <= i < a.len() implies #[trigger] a[i] == b[i] by {
        assert(b.take(a.len() as int)[i] == b[i]);
    }
    match number(name_or_id) {
        Some(g) => {
            if 1 <= g <= a.len() {
                assert(a[g - 1] == b[g - 1]);
            } else if numbered(b, g) {
                assert(b[g - 1] is Checkpoint);
            }
        },
        None => {
            lemma_named_in_front(a, b, b.len() as int, name_or_id);
            lemma_named_same(a, b, a.len() as int, name_or_id);
            if let Some(i) = last_named(a, a.len() as int, name_or_id) {
                assert(generation(b[i]) == i + 1);
            }
        },
    }
}

// ── Liveness ─────────────────────────────────────────────────────────

proof fn lemma_checkpoint_in_front(a: Seq<Record>, b: Seq<Record>, hi: int, g: u64)
    requires
        0 <= hi <= a.len() <= b.len(),
        b.take(a.len() as int) == a,
    ensures
        checkpoint_in(a, 0, hi, g) == checkpoint_in(b, 0, hi, g),
    decreases hi,
{
    if hi > 0 {
        lemma_checkpoint_in_front(a, b, hi - 1, g);
        assert(b.take(a.len() as int)[hi - 1] == b[hi - 1]);
    }
}

proof fn lemma_live_end_front(a: Seq<Record>, b: Seq<Record>, hi: int, j: int, num: int)
    requires
        0 <= j <= hi <= a.len() <= b.len(),
        b.take(a.len() as int) == a,
    ensures
        live_end(a, 0, hi, j, num) == live_end(b, 0, hi, j, num),
    decreases hi - j,
{
    if j < hi {
        lemma_live_end_front(a, b, hi, j + 1, num);
        assert(b.take(a.len() as int)[j] == b[j]);
        if let Record::Restore { target_gen, .. } = a[j] {
            lemma_checkpoint_in_front(a, b, hi, target_gen);
        }
    }
}

proof fn lemma_survives_front(a: Seq<Record>, b: Seq<Record>, hi: int, num: int, i: int)
    requires
        0 <= hi <= a.len() <= b.len(),
        b.take(a.len() as int) == a,
    ensures
        survives(a, 0, hi, num, i) == survives(b, 0, hi, num, i),
{
    assert forall|j: int| 0 <= j < hi implies #[trigger] kills(a, 0, hi, j, num, i) == kills(
        b,
        0,
        hi,
        j,
        num,
        i,
    ) by {
        lemma_live_end_front(a, b, hi, j + 1, num);
        assert(b.take(a.len() as int)[j] == b[j]);
        if let Record::Restore { target_gen, .. } = a[j] {
            lemma_checkpoint_in_front(a, b, hi, target_gen);
        }
    }
    if killed_from(a, 0, hi, 0, num, i) {
        let j = choose|j: int| 0 <= j < hi && #[trigger] kills(a, 0, hi, j, num, i);
        assert(kills(b, 0, hi, j, num, i));
    }
    if killed_from(b, 0, hi, 0, num, i) {
        let j = choose|j: int| 0 <= j < hi && #[trigger] kills(b, 0, hi, j, num, i);
        assert(kills(a, 0, hi, j, num, i) == kills(b, 0, hi, j, num, i));
    }
}

proof fn lemma_kept_alike(
    s: Seq<Segment>,
    t: Seq<Segment>,
    n: int,
    a: spec_fn(int) -> bool,
    b: spec_fn(int) -> bool,
)
    requires
        0 <= n <= s.len(),
        n <= t.len(),
        forall|i: int| 0 <= i < n ==> (#[trigger] s[i])@ == t[i]@,
        forall|i: int| 0 <= i < n ==> #[trigger] a(i) == b(i),
    ensures
        segment_views(sift(s, n, a)) == segment_views(sift(t, n, b)),
    decreases n,
{
    if n > 0 {
        lemma_kept_alike(s, t, n - 1, a, b);
        assert(s[n - 1]@ == t[n - 1]@);
        assert(a(n - 1) == b(n - 1));
        let (x, y) = (sift(s, n - 1, a), sift(t, n - 1, b));
        assert(segment_views(x.push(s[n - 1])) =~= segment_views(x).push(s[n - 1]@));
        assert(segment_views(y.push(t[n - 1])) =~= segment_views(y).push(t[n - 1]@));
    } else {
        assert(segment_views(sift(s, n, a)) =~= segment_views(sift(t, n, b)));
    }
}

/// Records after a checkpoint, restores among them, have no influence on the
/// live prefix up to it: a journal to which more has been appended has the
/// same checkpoint of a name or number, or none just the same, and the same
/// live segments up to it.
pub proof fn law_prefix_ignores_what_follows(
    s: Seq<Record>,
    more: Seq<Record>,
    short: SegmentedJournal,
    long: SegmentedJournal,
    name_or_id: Seq<char>,
)
    requires
        counts_up(markers_of(s + more)),
        never_called(more, name_or_id),
        segment_views(short.segments@) == segments_of(s),
        short.markers.0@ == markers_of(s),
        segment_views(long.segments@) == segments_of(s + more),
        long.markers.0@ == markers_of(s + more),
    ensures
        lookup(long.markers.0@, name_or_id) == lookup(short.markers.0@, name_or_id),
        lookup(short.markers.0@, name_or_id) matches Some(g) ==> segment_views(
            live_prefix_of(long.segments@, long.markers.0@, g as int),
        ) == segment_views(live_prefix_of(short.segments@, short.markers.0@, g as int)),
{
    let t = s + more;
    let (a, b) = (markers_of(s), markers_of(t));
    lemma_appended(s, more, name_or_id);
    lemma_lookup(a, b, name_or_id);
    if let Some(g) = lookup(a, name_or_id) {
        let n = g as int;
        let (c, d) = (closed_segments(s, s.len() as int), closed_segments(t, t.len() as int));
        assert(segment_views(short.segments@).len() == c.len() + 1);
        assert(segment_views(long.segments@).len() == d.len() + 1);
        assert forall|i: int| 0 <= i < n implies (#[trigger] long.segments@[i])@
            == short.segments@[i]@ by {
            assert(segment_views(long.segments@)[i] == d[i]);
            assert(segment_views(short.segments@)[i] == c[i]);
            assert(d.take(c.len() as int)[i] == d[i]);
        }
        assert forall|i: int| 0 <= i < n implies survives(a, 0, n, n, i) == #[trigger] survives(
            b,
            0,
            n,
            n,
            i,
        ) by {
            lemma_survives_front(a, b, n, n, i);
        }
        lemma_kept_alike(
            long.segments@,
            short.segments@,
            n,
            |i: int| survives(b, 0, n, n, i),
            |i: int| survives(a, 0, n, n, i),
        );
    }
}

} // verus!
