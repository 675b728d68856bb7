//! That collapsing chains of moves keeps what replaying leaves behind.
use super::effect::{
    at, cancelled_adds_are_new, law_cancel_keeps_effect, law_decompose_keeps_effect,
    law_merge_keeps_effect, lemma_same_files, lemma_sift_step, modified_stay,
    moved_stay_until_modified, replay, replay_one, Content, Files,
};
use super::passes::{actions_of, cancelled, decomposed, involves};
use super::simplify::{
    chain, chain_left, chain_ok, chains_ok, collapsed, leads_to, lemma_chain_ok, lemma_move_from,
    lemma_visits_keep, members, moved_to, next_move, redirected, settled, simplified, visit, visits,
    Chains,
};
use super::types::{Action, Record};
use crate::sift::sift;
use vstd::prelude::*;

verus! {

/// The actions that are left among the first `n`.
pub open spec fn left(st: Chains, n: int) -> Seq<Action> {
    sift(st.acts, n, |i: int| !st.removed.contains(i))
}

/// The stopovers of a chain are free when it begins, and until it ends no
/// other action involves them or the place where it ends.
pub open spec fn collapse_safe(st: Chains, c: Seq<int>, m: Files) -> bool {
    &&& forall|i: int|
        0 <= i < c.len() - 1 ==> at(
            replay(m, left(st, c[0])),
            st.acts[#[trigger] c[i]].dest(),
        ) is None
    &&& forall|k: int, i: int|
        #![trigger st.acts[k], c[i]]
        c[0] < k < c.last() && !c.contains(k) && !st.removed.contains(k) && 0 <= i < c.len()
            ==> !involves(st.acts[k], st.acts[c[i]].dest())
}

/// Where looking at position `i` collapses a chain, that is safe.
pub open spec fn visit_safe(st: Chains, i: int, heads_only: bool, m: Files) -> bool {
    visit(st, i, heads_only).removed != st.removed ==> collapse_safe(
        st,
        chain(st, seq![i], !heads_only),
        m,
    )
}

/// Each chain that is collapsed while the first `n` positions are looked at is safe.
pub open spec fn visits_safe(st: Chains, n: int, heads_only: bool, m: Files) -> bool
    decreases n,
{
    n <= 0 || (visits_safe(st, n - 1, heads_only, m) && visit_safe(
        visits(st, n - 1, heads_only),
        n - 1,
        heads_only,
        m,
    ))
}

/// Each chain that is collapsed is safe.
pub open spec fn collapses_safely(s: Seq<Action>, m: Files) -> bool {
    let st = Chains { orig: s, acts: s, removed: Set::empty(), done: Set::empty() };
    let n = s.len() as int;
    visits_safe(st, n, true, m) && visits_safe(visits(st, n, true), n, false, m)
}

// ── The shape of a chain ─────────────────────────────────────────────

/// Each move of the chain takes on what the one before it left, no two take
/// from one path, and those after the first are still there.
spec fn linked(st: Chains, c: Seq<int>) -> bool {
    &&& forall|k: int|
        0 <= k < c.len() - 1 ==> st.acts[#[trigger] c[k]].dest() == st.acts[c[k + 1]].source()
    &&& forall|j: int, k: int|
        0 <= j < k < c.len() ==> st.acts[#[trigger] c[j]].source()
            != st.acts[#[trigger] c[k]].source()
    &&& forall|k: int| 1 <= k < c.len() ==> !st.removed.contains(#[trigger] c[k])
}

proof fn lemma_chain_linked(st: Chains, c: Seq<int>, skip_done: bool)
    requires
        chains_ok(st),
        chain_ok(st, c),
        linked(st, c),
    ensures
        linked(st, chain(st, c, skip_done)),
    decreases st.orig.len() - c.last(),
{
    assert(0 <= c[c.len() - 1] < st.orig.len());
    if !chain_left(st, c, st.acts[c.last()].dest()) {
        match next_move(st, c.last(), skip_done) {
            Some(j) => {
                lemma_move_from(st.orig, st.orig.len() as int, st.acts[c.last()].dest());
                assert(st.acts[j].is_move());
                assert(st.acts[j].source() == st.orig[j].source());
                let d = c.push(j);
                assert forall|k: int| 0 <= k < d.len() - 1 implies st.acts[#[trigger] d[k]].dest()
                    == st.acts[d[k + 1]].source() by {
                    if k < c.len() - 1 {
                        assert(d[k] == c[k] && d[k + 1] == c[k + 1]);
                    }
                }
                assert forall|a: int, b: int| 0 <= a < b < d.len() implies st.acts[
                    #[trigger] d[a]
                ].source() != st.acts[#[trigger] d[b]].source() by {
                    assert(d[a] == c[a]);
                    if b < c.len() {
                        assert(d[b] == c[b]);
                    } else {
                        assert(st.acts[c[a]].source() != st.acts[c.last()].dest());
                    }
                }
                lemma_chain_linked(st, d, skip_done);
            },
            None => {},
        }
    }
}

// ── One collapse ─────────────────────────────────────────────────────

/// The state after the chain has been collapsed.
spec fn collapse(st: Chains, c: Seq<int>) -> Chains {
    Chains {
        acts: st.acts.update(c[0], redirected(st.acts[c[0]], st.acts[c.last()])),
        removed: st.removed.union(members(c.skip(1))),
        done: st.done.union(members(c)),
        ..st
    }
}

/// True when the moves of the chain up to `j`, and no others, are among the
/// first `k` actions.
spec fn at_stage(c: Seq<int>, k: int, j: int) -> bool {
    0 <= j < c.len() && c[j] < k && (j + 1 < c.len() ==> k <= c[j + 1])
}

/// True when a move of the chain leads to `p`.
spec fn on_way(st: Chains, c: Seq<int>, p: Seq<char>) -> bool {
    exists|i: int| 0 <= i < c.len() && st.acts[#[trigger] c[i]].dest() == p
}

/// How the results with (`b`) and without (`a`) the collapse compare while
/// what stood at the start of the chain, `v`, is on its way.
spec fn compares(st: Chains, c: Seq<int>, a: Files, b: Files, v: Option<Content>, j: int) -> bool {
    let end = st.acts[c.last()].dest();
    &&& forall|p: Seq<char>| !on_way(st, c, p) ==> #[trigger] at(a, p) == at(b, p)
    &&& j == c.len() - 1 ==> a == b
    &&& j < c.len() - 1 && v is Some ==> at(a, st.acts[c[j]].dest()) == v && at(b, end) == v
    &&& j < c.len() - 1 && v is Some ==> forall|i: int|
        0 <= i < c.len() - 1 && i != j ==> at(a, st.acts[#[trigger] c[i]].dest()) is None
    &&& j < c.len() - 1 && v is Some ==> forall|i: int|
        0 <= i < c.len() - 1 && st.acts[#[trigger] c[i]].dest() != end ==> at(
            b,
            st.acts[c[i]].dest(),
        ) is None
    &&& j < c.len() - 1 && v is None ==> at(a, end) == at(b, end)
    &&& j < c.len() - 1 && v is None ==> forall|i: int|
        0 <= i < c.len() - 1 ==> at(a, st.acts[#[trigger] c[i]].dest()) is None && at(
            b,
            st.acts[c[i]].dest(),
        ) is None
}

/// What is known of a chain that is collapsed.
spec fn collapsible(st: Chains, c: Seq<int>, m: Files) -> bool {
    &&& chain_ok(st, c)
    &&& linked(st, c)
    &&& st.acts.len() == st.orig.len()
    &&& c.len() > 1
    &&& !st.removed.contains(c[0])
    &&& st.acts[c.last()].dest() != st.acts[c[0]].source()
    &&& collapse_safe(st, c, m)
}

proof fn lemma_left_step(st: Chains, m: Files, k: int)
    requires
        0 <= k < st.acts.len(),
    ensures
        replay(m, left(st, k + 1)) == (if st.removed.contains(k) {
            replay(m, left(st, k))
        } else {
            replay_one(replay(m, left(st, k)), st.acts[k])
        }),
{
    lemma_sift_step(m, st.acts, k, |i: int| !st.removed.contains(i));
}

/// Which positions a collapse removes.
proof fn lemma_collapse_removed(st: Chains, c: Seq<int>, k: int)
    requires
        chain_ok(st, c),
    ensures
        collapse(st, c).removed.contains(k) == (st.removed.contains(k) || (c.contains(k) && k
            != c[0])),
{
    let d = c.skip(1);
    if d.contains(k) {
        let i = choose|i: int| 0 <= i < d.len() && d[i] == k;
        assert(c[i + 1] == k);
        assert(c[0] < c[i + 1]);
    }
    if c.contains(k) && k != c[0] {
        let i = choose|i: int| 0 <= i < c.len() && c[i] == k;
        assert(d[i - 1] == k);
    }
}

proof fn lemma_before_chain(st: Chains, c: Seq<int>, m: Files, k: int)
    requires
        collapsible(st, c, m),
        0 <= k <= c[0],
    ensures
        replay(m, left(collapse(st, c), k)) == replay(m, left(st, k)),
    decreases k,
{
    if k > 0 {
        lemma_before_chain(st, c, m, k - 1);
        lemma_left_step(st, m, k - 1);
        lemma_left_step(collapse(st, c), m, k - 1);
        lemma_collapse_removed(st, c, k - 1);
        if c.contains(k - 1) {
            let i = choose|i: int| 0 <= i < c.len() && c[i] == k - 1;
            if i > 0 {
                assert(c[0] < c[i]);
            }
        }
    }
}

/// The first move of the chain.
proof fn lemma_chain_begins(st: Chains, c: Seq<int>, m: Files)
    requires
        collapsible(st, c, m),
    ensures
        compares(
            st,
            c,
            replay(m, left(st, c[0] + 1)),
            replay(m, left(collapse(st, c), c[0] + 1)),
            at(replay(m, left(st, c[0])), st.acts[c[0]].source()),
            0,
        ),
{
    let st2 = collapse(st, c);
    let h = c[0];
    lemma_before_chain(st, c, m, h);
    lemma_left_step(st, m, h);
    lemma_left_step(st2, m, h);
    lemma_collapse_removed(st, c, h);
    let a0 = replay(m, left(st, h));
    let a = replay(m, left(st, h + 1));
    let b = replay(m, left(st2, h + 1));
    let from = st.acts[h].source();
    let end = st.acts[c.last()].dest();
    let v = at(a0, from);
    assert(st2.acts[h].source() == from && st2.acts[h].dest() == end && st2.acts[h].is_move());
    assert(a == replay_one(a0, st.acts[h]));
    assert(b == replay_one(a0, st2.acts[h]));
    assert(st.acts[c[0]].dest() == st.acts[c[1]].source());
    assert(from != st.acts[c[1]].source());
    assert forall|i: int| 0 <= i < c.len() - 1 implies st.acts[#[trigger] c[i]].dest() != from by {
        assert(st.acts[c[i]].dest() == st.acts[c[i + 1]].source());
        assert(st.acts[c[0]].source() != st.acts[c[i + 1]].source());
    }
    assert forall|i: int| 0 < i < c.len() - 1 implies st.acts[#[trigger] c[i]].dest()
        != st.acts[c[0]].dest() by {
        assert(st.acts[c[i]].dest() == st.acts[c[i + 1]].source());
        assert(st.acts[c[1]].source() != st.acts[c[i + 1]].source());
    }
    assert forall|p: Seq<char>| !on_way(st, c, p) implies #[trigger] at(a, p) == at(b, p) by {
        assert(st.acts[c[0]].dest() != p);
        assert(st.acts[c[c.len() - 1]].dest() != p);
    }
}

/// A move of the chain after the first.
proof fn lemma_chain_moves_on(
    st: Chains,
    c: Seq<int>,
    m: Files,
    a: Files,
    b: Files,
    v: Option<Content>,
    j: int,
)
    requires
        collapsible(st, c, m),
        0 < j < c.len(),
        compares(st, c, a, b, v, j - 1),
    ensures
        compares(st, c, replay_one(a, st.acts[c[j]]), b, v, j),
{
    let act = st.acts[c[j]];
    let a2 = replay_one(a, act);
    let end = st.acts[c.last()].dest();
    assert(act.is_move());
    assert(st.acts[c[j - 1]].dest() == act.source());
    assert forall|i: int| 0 <= i < c.len() - 1 && i != j - 1 implies st.acts[
        #[trigger] c[i]
    ].dest() != act.source() by {
        assert(st.acts[c[i]].dest() == st.acts[c[i + 1]].source());
        if i + 1 < j {
            assert(st.acts[c[i + 1]].source() != st.acts[c[j]].source());
        } else {
            assert(st.acts[c[j]].source() != st.acts[c[i + 1]].source());
        }
    }
    if j < c.len() - 1 {
        assert forall|i: int| 0 <= i < c.len() - 1 && i != j implies st.acts[
            #[trigger] c[i]
        ].dest() != act.dest() by {
            assert(st.acts[c[i]].dest() == st.acts[c[i + 1]].source());
            assert(st.acts[c[j]].dest() == st.acts[c[j + 1]].source());
            if i < j {
                assert(st.acts[c[i + 1]].source() != st.acts[c[j + 1]].source());
            } else {
                assert(st.acts[c[j + 1]].source() != st.acts[c[i + 1]].source());
            }
        }
    }
    assert forall|p: Seq<char>| !on_way(st, c, p) implies #[trigger] at(a2, p) == at(b, p) by {
        assert(st.acts[c[j]].dest() != p);
        assert(st.acts[c[j - 1]].dest() != p);
        assert(at(a, p) == at(b, p));
    }
    if j == c.len() - 1 {
        assert(act.dest() == end);
        assert forall|p: Seq<char>| #[trigger] at(a2, p) == at(b, p) by {
            if on_way(st, c, p) && p != end {
                let i = choose|i: int| 0 <= i < c.len() && st.acts[#[trigger] c[i]].dest() == p;
                assert(i < c.len() - 1);
            }
        }
        lemma_same_files(a2, b);
    }
}

/// An action that is not part of the chain.
proof fn lemma_chain_waits(
    st: Chains,
    c: Seq<int>,
    m: Files,
    a: Files,
    b: Files,
    v: Option<Content>,
    j: int,
    k: int,
)
    requires
        collapsible(st, c, m),
        0 <= j < c.len(),
        c[0] < k,
        j < c.len() - 1 ==> k < c.last(),
        !c.contains(k),
        !st.removed.contains(k),
        compares(st, c, a, b, v, j),
    ensures
        compares(st, c, replay_one(a, st.acts[k]), replay_one(b, st.acts[k]), v, j),
{
    if j < c.len() - 1 {
        let act = st.acts[k];
        let a2 = replay_one(a, act);
        let b2 = replay_one(b, act);
        assert forall|i: int| 0 <= i < c.len() implies !involves(
            act,
            st.acts[#[trigger] c[i]].dest(),
        ) by {}
        assert(!on_way(st, c, act.source()));
        assert(at(a, act.source()) == at(b, act.source()));
        assert forall|p: Seq<char>| !on_way(st, c, p) implies #[trigger] at(a2, p) == at(b2, p) by {
            assert(at(a, p) == at(b, p));
        }
        assert(st.acts[c[c.len() - 1]].dest() == st.acts[c.last()].dest());
        assert(!involves(act, st.acts[c[c.len() - 1]].dest()));
        assert(!involves(act, st.acts[c[j]].dest()));
    } else {
        assert(a == b);
    }
}

proof fn lemma_chain_compares(st: Chains, c: Seq<int>, m: Files, k: int, j: int)
    requires
        collapsible(st, c, m),
        k <= st.acts.len(),
        at_stage(c, k, j),
    ensures
        compares(
            st,
            c,
            replay(m, left(st, k)),
            replay(m, left(collapse(st, c), k)),
            at(replay(m, left(st, c[0])), st.acts[c[0]].source()),
            j,
        ),
    decreases k,
{
    let st2 = collapse(st, c);
    let v = at(replay(m, left(st, c[0])), st.acts[c[0]].source());
    let i = k - 1;
    if j > 0 {
        assert(c[0] < c[j]);
    }
    if i == c[0] {
        lemma_chain_begins(st, c, m);
    } else {
        lemma_left_step(st, m, i);
        lemma_left_step(st2, m, i);
        lemma_collapse_removed(st, c, i);
        let a = replay(m, left(st, i));
        let b = replay(m, left(st2, i));
        if c[j] == i {
            assert(c.contains(i));
            assert(c[j - 1] < c[j]);
            lemma_chain_compares(st, c, m, i, j - 1);
            lemma_chain_moves_on(st, c, m, a, b, v, j);
        } else {
            if c.contains(i) {
                let q = choose|q: int| 0 <= q < c.len() && c[q] == i;
                if q < j {
                    assert(c[q] < c[j]);
                } else {
                    assert(c[j] < c[q]);
                    if q > j + 1 {
                        assert(c[j + 1] < c[q]);
                    }
                }
            }
            lemma_chain_compares(st, c, m, i, j);
            if !st.removed.contains(i) {
                if j < c.len() - 1 && j + 1 < c.len() - 1 {
                    assert(c[j + 1] < c[c.len() - 1]);
                }
                lemma_chain_waits(st, c, m, a, b, v, j, i);
            }
        }
    }
}

/// One collapse keeps what replaying leaves behind.
proof fn lemma_collapse_keeps_effect(st: Chains, c: Seq<int>, m: Files)
    requires
        collapsible(st, c, m),
    ensures
        replay(m, left(collapse(st, c), st.acts.len() as int)) == replay(
            m,
            left(st, st.acts.len() as int),
        ),
{
    let j = c.len() - 1;
    assert(0 <= c[j] < st.orig.len());
    lemma_chain_compares(st, c, m, st.acts.len() as int, j);
}

// ── All collapses ────────────────────────────────────────────────────

proof fn lemma_visit_keeps_effect(st: Chains, i: int, heads_only: bool, m: Files)
    requires
        chains_ok(st),
        0 <= i < st.orig.len(),
        visit_safe(st, i, heads_only, m),
    ensures
        replay(m, left(visit(st, i, heads_only), st.acts.len() as int)) == replay(
            m,
            left(st, st.acts.len() as int),
        ),
{
    let n = st.acts.len() as int;
    if st.done.contains(i) || st.removed.contains(i) || !st.acts[i].is_move() || (heads_only
        && moved_to(st.orig, st.acts[i].source())) {
    } else {
        let c = chain(st, seq![i], !heads_only);
        assert(chain_ok(st, seq![i]));
        assert(linked(st, seq![i]));
        lemma_chain_ok(st, seq![i], !heads_only);
        lemma_chain_linked(st, seq![i], !heads_only);
        let end = st.acts[c.last()].dest();
        if c.len() > 1 && !leads_to(st, end, st.acts[i].source()) {
            assert(super::simplify::follow(st, end, 0) == Some(end));
            assert(visit(st, i, heads_only) == collapse(st, c));
            assert(!st.removed.contains(c[1]));
            assert(c.skip(1)[0] == c[1]);
            assert(members(c.skip(1)).contains(c[1]));
            assert(visit(st, i, heads_only).removed.contains(c[1]));
            lemma_collapse_keeps_effect(st, c, m);
        } else {
            assert(left(visit(st, i, heads_only), n) == left(st, n));
        }
    }
}

proof fn lemma_visits_keep_effect(st: Chains, k: int, heads_only: bool, m: Files)
    requires
        chains_ok(st),
        forall|j: int| #[trigger] st.removed.contains(j) ==> st.orig[j].is_move(),
        0 <= k <= st.orig.len(),
        visits_safe(st, k, heads_only, m),
    ensures
        replay(m, left(visits(st, k, heads_only), st.orig.len() as int)) == replay(
            m,
            left(st, st.orig.len() as int),
        ),
    decreases k,
{
    if k > 0 {
        lemma_visits_keep_effect(st, k - 1, heads_only, m);
        lemma_visits_keep(st, k - 1, heads_only);
        lemma_visit_keeps_effect(visits(st, k - 1, heads_only), k - 1, heads_only, m);
    }
}

/// Collapsing chains keeps what replaying leaves behind, where the stopovers
/// of each chain are free when it begins and no other action involves its
/// paths until it ends.
pub proof fn law_collapse_keeps_effect(s: Seq<Action>, m: Files)
    requires
        collapses_safely(s, m),
    ensures
        replay(m, collapsed(s)) == replay(m, s),
{
    let n = s.len() as int;
    let st = Chains { orig: s, acts: s, removed: Set::empty(), done: Set::empty() };
    lemma_visits_keep_effect(st, n, true, m);
    lemma_visits_keep(st, n, true);
    lemma_visits_keep_effect(visits(st, n, true), n, false, m);
    crate::sift::lemma_sift_all(s, n, |i: int| !st.removed.contains(i));
    assert(s.take(n) =~= s);
    assert(left(st, n) == s);
    assert(left(settled(s), n) == collapsed(s));
}

/// What the passes rely on, each of what the one before it hands on.
pub open spec fn simplifies_safely(s: Seq<Action>, m: Files) -> bool {
    &&& moved_stay_until_modified(s)
    &&& collapses_safely(decomposed(s), m)
    &&& cancelled_adds_are_new(collapsed(decomposed(s)), m)
    &&& modified_stay(cancelled(collapsed(decomposed(s))))
}

/// Replaying the simplified list leaves behind what replaying every record
/// does, for any state of base that the records start from.
pub proof fn law_simplify_keeps_effect(s: Seq<Record>, m: Files)
    requires
        simplifies_safely(actions_of(s), m),
    ensures
        replay(m, simplified(s)) == replay(m, actions_of(s)),
{
    let a = actions_of(s);
    law_decompose_keeps_effect(a, m);
    law_collapse_keeps_effect(decomposed(a), m);
    law_cancel_keeps_effect(collapsed(decomposed(a)), m);
    law_merge_keeps_effect(cancelled(collapsed(decomposed(a))), m);
}

} // verus!
