//! Simplifying records into actions with rename chains collapsed.
use super::passes::{
    actions_of, cancel, cancelled, decompose_rename_modify, decomposed, merge_modifies, merged,
    to_actions,
};
use super::types::{Action, ActionList, Record};
use crate::sift::{flags, keep_flagged, sift};
use vstd::hash_map::StringHashMap;
use vstd::hash_set::StringHashSet;
use vstd::prelude::*;

verus! {

// ── Chains of moves ──────────────────────────────────────────────────

/// The last of the first `n` actions that moves something away from `p`.
pub open spec fn move_from(s: Seq<Action>, n: int, p: Seq<char>) -> Option<int>
    decreases n,
{
    if n <= 0 {
        None
    } else if s[n - 1].is_move() && s[n - 1].source() == p {
        Some(n - 1)
    } else {
        move_from(s, n - 1, p)
    }
}

/// The state of the pass: the actions with the destinations collapsed so far,
/// the positions to drop, and the positions that are settled.
pub struct Chains {
    pub orig: Seq<Action>,
    pub acts: Seq<Action>,
    pub removed: Set<int>,
    pub done: Set<int>,
}

/// The move to which the chain ending at `tail` goes on: the last move away
/// from its destination, where it comes later and is still free.
pub open spec fn next_move(st: Chains, tail: int, skip_done: bool) -> Option<int> {
    match move_from(st.orig, st.orig.len() as int, st.acts[tail].dest()) {
        Some(j) => if j <= tail || st.removed.contains(j) || (skip_done && st.done.contains(j)) {
            None
        } else {
            Some(j)
        },
        None => None,
    }
}

/// True when `p` is the source of a member of the chain.
pub open spec fn chain_left(st: Chains, c: Seq<int>, p: Seq<char>) -> bool {
    exists|k: int| 0 <= k < c.len() && st.acts[#[trigger] c[k]].source() == p
}

/// The chain that starts with `c`, followed as far as it goes.
pub open spec fn chain(st: Chains, c: Seq<int>, skip_done: bool) -> Seq<int>
    decreases st.orig.len() - c.last(),
    when c.len() > 0 && c.last() < st.orig.len()
{
    if chain_left(st, c, st.acts[c.last()].dest()) {
        c
    } else {
        match next_move(st, c.last(), skip_done) {
            Some(j) => if c.last() < j < st.orig.len() {
                chain(st, c.push(j), skip_done)
            } else {
                c
            },
            None => c,
        }
    }
}

/// Where `p` is after `k` moves, whatever their order in time.
pub open spec fn follow(st: Chains, p: Seq<char>, k: nat) -> Option<Seq<char>>
    decreases k,
{
    if k == 0 {
        Some(p)
    } else {
        match follow(st, p, (k - 1) as nat) {
            Some(q) => match move_from(st.orig, st.orig.len() as int, q) {
                Some(j) => Some(st.acts[j].dest()),
                None => None,
            },
            None => None,
        }
    }
}

/// True when some number of moves leads from `p` to `q`.
pub open spec fn leads_to(st: Chains, p: Seq<char>, q: Seq<char>) -> bool {
    exists|k: nat| #[trigger] follow(st, p, k) == Some(q)
}

/// The move `a` with the destination of the move `tail`.
pub open spec fn redirected(a: Action, tail: Action) -> Action {
    let to = match tail {
        Action::Rename { new, .. } => new,
        Action::Replace { new, .. } => new,
        Action::Add { path, .. } => path,
        Action::Modify { path, .. } => path,
        Action::Delete { path } => path,
    };
    match a {
        Action::Rename { old, dtype, .. } => Action::Rename { old, new: to, dtype },
        Action::Replace { old, dtype, .. } => Action::Replace { old, new: to, dtype },
        _ => a,
    }
}

/// True when some action of `s` moves something to `p`.
pub open spec fn moved_to(s: Seq<Action>, p: Seq<char>) -> bool {
    exists|j: int| 0 <= j < s.len() && (#[trigger] s[j]).is_move() && s[j].dest() == p
}

pub open spec fn members(c: Seq<int>) -> Set<int> {
    Set::new(|i: int| c.contains(i))
}

/// The state after the move at `i` has been looked at. A chain of more than
/// one move collapses into its head, unless moves lead from its end back to its start.
pub open spec fn visit(st: Chains, i: int, heads_only: bool) -> Chains {
    if st.done.contains(i) || st.removed.contains(i) || !st.acts[i].is_move() {
        st
    } else if heads_only && moved_to(st.orig, st.acts[i].source()) {
        st
    } else {
        let c = chain(st, seq![i], !heads_only);
        if c.len() <= 1 {
            Chains { done: st.done.insert(i), ..st }
        } else if leads_to(st, st.acts[c.last()].dest(), st.acts[i].source()) {
            Chains { done: st.done.union(members(c)), ..st }
        } else {
            Chains {
                acts: st.acts.update(i, redirected(st.acts[i], st.acts[c.last()])),
                removed: st.removed.union(members(c.skip(1))),
                done: st.done.union(members(c)),
                ..st
            }
        }
    }
}

/// The state after the first `n` positions have been looked at in turn.
pub open spec fn visits(st: Chains, n: int, heads_only: bool) -> Chains
    decreases n,
{
    if n <= 0 {
        st
    } else {
        visit(visits(st, n - 1, heads_only), n - 1, heads_only)
    }
}

/// The state at the end of both rounds: first from the heads of chains, then
/// from what is left.
pub open spec fn settled(s: Seq<Action>) -> Chains {
    let st = Chains { orig: s, acts: s, removed: Set::empty(), done: Set::empty() };
    visits(visits(st, s.len() as int, true), s.len() as int, false)
}

/// `Rename(a, b)`, `Rename(b, c)` becomes `Rename(a, c)` at the place of the
/// first; cycles stay as they are.
pub open spec fn collapsed(s: Seq<Action>) -> Seq<Action> {
    sift(settled(s).acts, s.len() as int, |i: int| !settled(s).removed.contains(i))
}

/// The action list that records simplify to.
pub open spec fn simplified(s: Seq<Record>) -> Seq<Action> {
    merged(cancelled(collapsed(decomposed(actions_of(s)))))
}

/// The actions keep their kinds and sources; only destinations change.
pub open spec fn same_sources(a: Seq<Action>, b: Seq<Action>) -> bool {
    &&& a.len() == b.len()
    &&& forall|i: int|
        0 <= i < a.len() ==> (#[trigger] a[i]).is_move() == b[i].is_move() && a[i].source()
            == b[i].source() && (a[i] is Rename) == (b[i] is Rename) && (!a[i].is_move() ==> a[i]
            == b[i])
}

pub(crate) proof fn lemma_move_from(s: Seq<Action>, n: int, p: Seq<char>)
    ensures
        match move_from(s, n, p) {
            Some(j) => 0 <= j < n && s[j].is_move() && s[j].source() == p,
            None => true,
        },
    decreases n,
{
    if n > 0 && !(s[n - 1].is_move() && s[n - 1].source() == p) {
        lemma_move_from(s, n - 1, p);
    }
}

/// Links each path that something is moved away from to the last such move.
fn index_sources(actions: &Vec<Action>) -> (r: StringHashMap<usize>)
    ensures
        forall|p: Seq<char>|
            #![trigger r@.contains_key(p)]
            #![trigger move_from(actions@, actions@.len() as int, p)]
            match move_from(actions@, actions@.len() as int, p) {
                Some(j) => r@.contains_key(p) && r@[p] == j,
                None => !r@.contains_key(p),
            },
{
    let n: usize = actions.len();
    let mut r: StringHashMap<usize> = StringHashMap::new();
    let mut i: usize = 0;
    while i < n
        invariant
            i <= n,
            n == actions@.len(),
            forall|p: Seq<char>|
                #![trigger r@.contains_key(p)]
                #![trigger move_from(actions@, i as int, p)]
                match move_from(actions@, i as int, p) {
                    Some(j) => r@.contains_key(p) && r@[p] == j,
                    None => !r@.contains_key(p),
                },
        decreases n - i,
    {
        match &actions[i] {
            Action::Rename { old, .. } => {
                r.insert(old.clone(), i);
            },
            Action::Replace { old, .. } => {
                r.insert(old.clone(), i);
            },
            _ => {},
        }
        i += 1;
    }
    r
}

/// The flags tell which positions the set holds.
spec fn tells(flags: Seq<bool>, set: Set<int>, n: int) -> bool {
    &&& flags.len() == n
    &&& forall|i: int| 0 <= i < n ==> #[trigger] flags[i] == set.contains(i)
}

/// What holds of the state throughout the pass.
pub open spec fn chains_ok(st: Chains) -> bool {
    &&& same_sources(st.acts, st.orig)
    &&& forall|i: int| #[trigger] st.removed.contains(i) ==> 0 <= i < st.orig.len()
    &&& forall|i: int| #[trigger] st.done.contains(i) ==> 0 <= i < st.orig.len()
}

/// What the index of sources tells.
spec fn indexed(index: Map<Seq<char>, usize>, orig: Seq<Action>) -> bool {
    forall|p: Seq<char>|
        #![trigger index.contains_key(p)]
        #![trigger move_from(orig, orig.len() as int, p)]
        match move_from(orig, orig.len() as int, p) {
            Some(j) => index.contains_key(p) && index[p] == j,
            None => !index.contains_key(p),
        }
}

/// The positions as mathematical integers.
spec fn ints(c: Seq<usize>) -> Seq<int> {
    Seq::new(c.len(), |k: int| c[k] as int)
}

/// Moves at rising positions.
pub open spec fn chain_ok(st: Chains, c: Seq<int>) -> bool {
    &&& c.len() > 0
    &&& forall|k: int|
        0 <= k < c.len() ==> 0 <= (#[trigger] c[k]) < st.orig.len() && st.acts[c[k]].is_move()
    &&& forall|j: int, k: int| 0 <= j < k < c.len() ==> (#[trigger] c[j]) < (#[trigger] c[k])
}

/// The path that an action leaves something at.
fn dest_of(a: &Action) -> (r: &String)
    ensures
        r@ == a.dest(),
        redirected_name(*a) == *r,
{
    match a {
        Action::Rename { new, .. } => new,
        Action::Replace { new, .. } => new,
        Action::Add { path, .. } => path,
        Action::Modify { path, .. } => path,
        Action::Delete { path } => path,
    }
}

/// The path that an action is taken from.
fn source_of(a: &Action) -> (r: &String)
    ensures
        r@ == a.source(),
{
    match a {
        Action::Rename { old, .. } => old,
        Action::Replace { old, .. } => old,
        Action::Add { path, .. } => path,
        Action::Modify { path, .. } => path,
        Action::Delete { path } => path,
    }
}

/// True for the two kinds of move.
fn is_move(a: &Action) -> (r: bool)
    ensures
        r == a.is_move(),
{
    match a {
        Action::Rename { .. } => true,
        Action::Replace { .. } => true,
        _ => false,
    }
}

/// Follows the chain of moves that starts at `i`.
fn follow_chain(
    actions: &Vec<Action>,
    index: &StringHashMap<usize>,
    removed: &Vec<bool>,
    done: &Vec<bool>,
    i: usize,
    skip_done: bool,
    Ghost(st): Ghost<Chains>,
) -> (r: Vec<usize>)
    requires
        chains_ok(st),
        actions@ == st.acts,
        indexed(index@, st.orig),
        tells(removed@, st.removed, st.orig.len() as int),
        tells(done@, st.done, st.orig.len() as int),
        i < actions@.len(),
        actions@[i as int].is_move(),
    ensures
        ints(r@) == chain(st, seq![i as int], skip_done),
        chain_ok(st, ints(r@)),
        r@[0] == i,
{
    let mut c: Vec<usize> = Vec::new();
    c.push(i);
    assert(ints(c@) =~= seq![i as int]);
    loop
        invariant_except_break
            chains_ok(st),
            actions@ == st.acts,
            indexed(index@, st.orig),
            tells(removed@, st.removed, st.orig.len() as int),
            tells(done@, st.done, st.orig.len() as int),
            chain_ok(st, ints(c@)),
            c@[0] == i,
            chain(st, ints(c@), skip_done) == chain(st, seq![i as int], skip_done),
        ensures
            ints(c@) == chain(st, seq![i as int], skip_done),
            chain_ok(st, ints(c@)),
            c@[0] == i,
        decreases st.orig.len() - c@.last(),
    {
        let tail: usize = c[c.len() - 1];
        assert(ints(c@).last() == tail);
        assert(ints(c@)[c@.len() - 1] == tail);
        let dest: &String = dest_of(&actions[tail]);
        let mut left = false;
        let mut k: usize = 0;
        while k < c.len()
            invariant
                k <= c.len(),
                actions@ == st.acts,
                actions@.len() == st.orig.len(),
                chain_ok(st, ints(c@)),
                left == exists|j: int|
                    0 <= j < k && st.acts[#[trigger] ints(c@)[j]].source() == dest@,
            decreases c.len() - k,
        {
            assert(ints(c@)[k as int] == c@[k as int]);
            if *source_of(&actions[c[k]]) == *dest {
                left = true;
            }
            k += 1;
        }
        assert(left == chain_left(st, ints(c@), dest@));
        if left {
            break ;
        }
        match index.get(dest.as_str()) {
            Some(j) => {
                let j: usize = *j;
                proof {
                    lemma_move_from(st.orig, st.orig.len() as int, dest@);
                }
                if j <= tail || removed[j] || (skip_done && done[j]) {
                    break ;
                }
                let ghost old_c = c@;
                c.push(j);
                proof {
                    assert(ints(c@) =~= ints(old_c).push(j as int));
                    assert(st.acts[j as int].is_move());
                }
            },
            None => {
                break ;
            },
        }
    }
    c
}

/// The name that [`redirected`] takes from the tail of a chain.
spec fn redirected_name(tail: Action) -> String {
    match tail {
        Action::Rename { new, .. } => new,
        Action::Replace { new, .. } => new,
        Action::Add { path, .. } => path,
        Action::Modify { path, .. } => path,
        Action::Delete { path } => path,
    }
}

/// Where one move leads from `p`.
spec fn step(st: Chains, p: Seq<char>) -> Option<Seq<char>> {
    match move_from(st.orig, st.orig.len() as int, p) {
        Some(j) => Some(st.acts[j].dest()),
        None => None,
    }
}

proof fn lemma_follow_closed(st: Chains, p: Seq<char>, seen: Set<Seq<char>>, k: nat)
    requires
        seen.contains(p),
        forall|x: Seq<char>|
            #[trigger] seen.contains(x) ==> match step(st, x) {
                Some(y) => seen.contains(y),
                None => true,
            },
    ensures
        match follow(st, p, k) {
            Some(y) => seen.contains(y),
            None => true,
        },
    decreases k,
{
    if k > 0 {
        lemma_follow_closed(st, p, seen, (k - 1) as nat);
        match follow(st, p, (k - 1) as nat) {
            Some(q) => {
                assert(seen.contains(q));
            },
            None => {},
        }
    }
}

/// True when moves lead from `from` to `to`.
fn reaches(
    actions: &Vec<Action>,
    index: &StringHashMap<usize>,
    from: &String,
    to: &String,
    Ghost(st): Ghost<Chains>,
) -> (r: bool)
    requires
        chains_ok(st),
        actions@ == st.acts,
        indexed(index@, st.orig),
    ensures
        r == leads_to(st, from@, to@),
{
    let mut probe: String = from.clone();
    let mut seen: StringHashSet = StringHashSet::new();
    let ghost mut steps: nat = 0;
    let ghost mut used: Set<int> = Set::empty();
    assert(follow(st, from@, 0) == Some(from@));
    loop
        invariant
            chains_ok(st),
            actions@ == st.acts,
            indexed(index@, st.orig),
            follow(st, from@, steps) == Some(probe@),
            seen@.contains(from@) || probe@ == from@,
            !seen@.contains(to@),
            forall|x: Seq<char>|
                #[trigger] seen@.contains(x) ==> match step(st, x) {
                    Some(y) => seen@.contains(y) || y == probe@,
                    None => false,
                },
            forall|x: Seq<char>| #[trigger]
                seen@.contains(x) ==> used.contains(
                    move_from(st.orig, st.orig.len() as int, x)->0,
                ),
            forall|j: int| #[trigger]
                used.contains(j) ==> 0 <= j < st.orig.len() && seen@.contains(
                    st.orig[j].source(),
                ),
            used.finite(),
        decreases st.orig.len() - used.len(),
    {
        if probe == *to {
            return true;
        }
        if seen.contains(probe.as_str()) {
            proof {
                assert forall|k: nat| #[trigger] follow(st, from@, k) != Some(to@) by {
                    lemma_follow_closed(st, from@, seen@, k);
                }
            }
            return false;
        }
        match index.get(probe.as_str()) {
            Some(j) => {
                let j: usize = *j;
                let ghost p = probe@;
                let ghost old_used = used;
                proof {
                    lemma_move_from(st.orig, st.orig.len() as int, p);
                    steps = steps + 1;
                    used = used.insert(j as int);
                    assert(!old_used.contains(j as int));
                    let all = vstd::set_lib::set_int_range(0, st.orig.len() as int);
                    vstd::set_lib::lemma_int_range(0, st.orig.len() as int);
                    vstd::set_lib::lemma_len_subset(used, all);
                }
                let next: String = dest_of(&actions[j]).clone();
                seen.insert(probe);
                probe = next;
                proof {
                    assert(step(st, p) == Some(probe@));
                    assert(follow(st, from@, steps) == Some(probe@));
                }
            },
            None => {
                proof {
                    let ghost all = seen@.insert(probe@);
                    assert forall|k: nat| #[trigger] follow(st, from@, k) != Some(to@) by {
                        lemma_follow_closed(st, from@, all, k);
                    }
                }
                return false;
            },
        }
    }
}

/// The passes' working state.
struct Work {
    actions: Vec<Action>,
    removed: Vec<bool>,
    done: Vec<bool>,
}

impl Work {
    /// The state that the fields stand for.
    spec fn stands_for(&self, st: Chains) -> bool {
        &&& chains_ok(st)
        &&& self.actions@ == st.acts
        &&& tells(self.removed@, st.removed, st.orig.len() as int)
        &&& tells(self.done@, st.done, st.orig.len() as int)
    }
}

proof fn lemma_tells_members(flags: Seq<bool>, set: Set<int>, n: int, c: Seq<int>, k: int)
    requires
        0 <= k < c.len(),
        0 <= c[k] < n,
        tells(flags, set.union(members(c.take(k))), n),
    ensures
        tells(flags.update(c[k], true), set.union(members(c.take(k + 1))), n),
{
    let a = c.take(k);
    let b = c.take(k + 1);
    assert forall|i: int| 0 <= i < n implies #[trigger] flags.update(c[k], true)[i] == set.union(
        members(b),
    ).contains(i) by {
        if a.contains(i) {
            let j = choose|j: int| 0 <= j < a.len() && a[j] == i;
            assert(b[j] == i);
        }
        if b.contains(i) {
            let j = choose|j: int| 0 <= j < b.len() && b[j] == i;
            if j < k {
                assert(a[j] == i);
            }
        }
        assert(b[k] == c[k]);
    }
}

/// Sets the flags at the positions `c[from..]`.
fn mark(flags: &mut Vec<bool>, c: &Vec<usize>, from: usize, Ghost(set): Ghost<Set<int>>)
    requires
        from <= c@.len(),
        tells(old(flags)@, set, old(flags)@.len() as int),
        forall|k: int| 0 <= k < c@.len() ==> (#[trigger] c@[k]) < old(flags)@.len(),
    ensures
        tells(
            final(flags)@,
            set.union(members(ints(c@).skip(from as int))),
            old(flags)@.len() as int,
        ),
{
    let ghost cs = ints(c@).skip(from as int);
    let ghost n = flags@.len() as int;
    let mut k: usize = from;
    proof {
        assert forall|i: int| 0 <= i < n implies set.union(members(cs.take(0))).contains(i)
            == set.contains(i) by {}
    }
    while k < c.len()
        invariant
            from <= k <= c@.len(),
            flags@.len() == n,
            cs == ints(c@).skip(from as int),
            forall|k: int| 0 <= k < c@.len() ==> (#[trigger] c@[k]) < n,
            tells(flags@, set.union(members(cs.take(k - from))), n),
        decreases c@.len() - k,
    {
        proof {
            assert(cs[k - from] == c@[k as int]);
            lemma_tells_members(flags@, set, n, cs, k - from);
        }
        flags.set(c[k], true);
        k += 1;
    }
    proof {
        assert(cs.take(cs.len() as int) =~= cs);
    }
}

/// The paths that something is moved to.
fn destinations(actions: &Vec<Action>) -> (r: StringHashSet)
    ensures
        forall|p: Seq<char>| #[trigger] r@.contains(p) == moved_to(actions@, p),
{
    let mut r: StringHashSet = StringHashSet::new();
    let mut i: usize = 0;
    let ghost s = actions@;
    while i < actions.len()
        invariant
            i <= actions@.len(),
            s == actions@,
            forall|p: Seq<char>| #[trigger]
                r@.contains(p) == (exists|j: int|
                    0 <= j < i && (#[trigger] s[j]).is_move() && s[j].dest() == p),
        decreases actions@.len() - i,
    {
        let ghost before = r@;
        if is_move(&actions[i]) {
            r.insert(dest_of(&actions[i]).clone());
        }
        proof {
            assert forall|p: Seq<char>| #[trigger] r@.contains(p) == (exists|j: int|
                0 <= j < i + 1 && (#[trigger] s[j]).is_move() && s[j].dest() == p) by {
                if before.contains(p) {
                    let j = choose|j: int|
                        0 <= j < i && (#[trigger] s[j]).is_move() && s[j].dest() == p;
                    assert(s[j].is_move());
                }
                if s[i as int].is_move() && s[i as int].dest() == p {
                    assert(s[i as int].is_move());
                }
            }
        }
        i += 1;
    }
    r
}

/// Looks at the move at `i` and collapses the chain that starts there.
fn visit_move(
    w: &mut Work,
    index: &StringHashMap<usize>,
    dests: &StringHashSet,
    i: usize,
    heads_only: bool,
    Ghost(st): Ghost<Chains>,
)
    requires
        old(w).stands_for(st),
        indexed(index@, st.orig),
        forall|p: Seq<char>| #[trigger] dests@.contains(p) == moved_to(st.orig, p),
        i < st.orig.len(),
    ensures
        final(w).stands_for(visit(st, i as int, heads_only)),
        visit(st, i as int, heads_only).orig == st.orig,
{
    if w.done[i] || w.removed[i] || !is_move(&w.actions[i]) {
        return ;
    }
    let src: String = source_of(&w.actions[i]).clone();
    if heads_only && dests.contains(src.as_str()) {
        return ;
    }
    let c: Vec<usize> = follow_chain(
        &w.actions,
        index,
        &w.removed,
        &w.done,
        i,
        !heads_only,
        Ghost(st),
    );
    let ghost cs = ints(c@);
    assert forall|k: int| 0 <= k < c@.len() implies (#[trigger] c@[k]) < st.orig.len() by {
        assert(cs[k] == c@[k]);
    }
    if c.len() <= 1 {
        w.done.set(i, true);
        return ;
    }
    let tail: usize = c[c.len() - 1];
    assert(cs.last() == tail);
    let cyclic: bool = reaches(&w.actions, index, dest_of(&w.actions[tail]), &src, Ghost(st));
    assert(cs.skip(0) =~= cs);
    if cyclic {
        mark(&mut w.done, &c, 0, Ghost(st.done));
        return ;
    }
    let to: String = dest_of(&w.actions[tail]).clone();
    mark(&mut w.removed, &c, 1, Ghost(st.removed));
    mark(&mut w.done, &c, 0, Ghost(st.done));
    let from: String = src;
    let head: Action = match &w.actions[i] {
        Action::Rename { old, dtype, .. } => Action::Rename {
            old: old.clone(),
            new: to,
            dtype: *dtype,
        },
        Action::Replace { old, dtype, .. } => Action::Replace {
            old: old.clone(),
            new: to,
            dtype: *dtype,
        },
        _ => Action::Delete { path: from },
    };
    w.actions.set(i, head);
}

/// Collapses chains of moves, leaving cycles as they are.
pub fn chain_collapse(actions: Vec<Action>) -> (r: Vec<Action>)
    ensures
        r@ == collapsed(actions@),
{
    let n: usize = actions.len();
    let index = index_sources(&actions);
    let dests = destinations(&actions);
    let ghost start = Chains {
        orig: actions@,
        acts: actions@,
        removed: Set::empty(),
        done: Set::empty(),
    };
    let mut w = Work { actions, removed: flags(n, false), done: flags(n, false) };
    let mut i: usize = 0;
    while i < n
        invariant
            i <= n,
            n == start.orig.len(),
            indexed(index@, start.orig),
            forall|p: Seq<char>| #[trigger] dests@.contains(p) == moved_to(start.orig, p),
            visits(start, i as int, true).orig == start.orig,
            w.stands_for(visits(start, i as int, true)),
        decreases n - i,
    {
        visit_move(&mut w, &index, &dests, i, true, Ghost(visits(start, i as int, true)));
        i += 1;
    }
    let ghost mid = visits(start, n as int, true);
    i = 0;
    while i < n
        invariant
            i <= n,
            n == start.orig.len(),
            mid.orig == start.orig,
            indexed(index@, start.orig),
            forall|p: Seq<char>| #[trigger] dests@.contains(p) == moved_to(start.orig, p),
            visits(mid, i as int, false).orig == start.orig,
            w.stands_for(visits(mid, i as int, false)),
        decreases n - i,
    {
        visit_move(&mut w, &index, &dests, i, false, Ghost(visits(mid, i as int, false)));
        i += 1;
    }
    let ghost end = visits(mid, n as int, false);
    let mut keep: Vec<bool> = flags(n, true);
    let mut k: usize = 0;
    while k < n
        invariant
            k <= n,
            n == start.orig.len(),
            end.orig == start.orig,
            w.stands_for(end),
            keep@.len() == n,
            forall|j: int| 0 <= j < k ==> #[trigger] keep@[j] == !end.removed.contains(j),
        decreases n - k,
    {
        keep.set(k, !w.removed[k]);
        k += 1;
    }
    proof {
        assert(end == settled(start.orig));
        crate::sift::lemma_sift_same(
            end.acts,
            n as int,
            |i: int| keep@[i],
            |i: int| !settled(start.orig).removed.contains(i),
        );
    }
    keep_flagged(w.actions, &keep)
}

/// Converts journal records into a simplified, ordered action list: as
/// compacting does, with chains of moves collapsed.
pub fn simplify(records: Vec<Record>) -> (r: ActionList)
    ensures
        r.0@ == simplified(records@),
{
    let actions = to_actions(records);
    let actions = decompose_rename_modify(actions);
    let actions = chain_collapse(actions);
    let actions = cancel(actions);
    let actions = merge_modifies(actions);
    ActionList(actions)
}

// ── Laws of the collapse ─────────────────────────────────────────────

pub(crate) proof fn lemma_chain_ok(st: Chains, c: Seq<int>, skip_done: bool)
    requires
        chains_ok(st),
        chain_ok(st, c),
    ensures
        chain_ok(st, chain(st, c, skip_done)),
        chain(st, c, skip_done)[0] == c[0],
    decreases st.orig.len() - c.last(),
{
    assert(0 <= c[c.len() - 1] < st.orig.len());
    if !chain_left(st, c, st.acts[c.last()].dest()) {
        match next_move(st, c.last(), skip_done) {
            Some(j) => {
                lemma_move_from(st.orig, st.orig.len() as int, st.acts[c.last()].dest());
                assert(st.acts[j].is_move());
                lemma_chain_ok(st, c.push(j), skip_done);
            },
            None => {},
        }
    }
}

pub(crate) proof fn lemma_visit_keeps(st: Chains, i: int, heads_only: bool)
    requires
        chains_ok(st),
        forall|j: int| #[trigger] st.removed.contains(j) ==> st.orig[j].is_move(),
        0 <= i < st.orig.len(),
    ensures
        chains_ok(visit(st, i, heads_only)),
        visit(st, i, heads_only).orig == st.orig,
        forall|j: int| #[trigger]
            visit(st, i, heads_only).removed.contains(j) ==> st.orig[j].is_move(),
{
    if st.acts[i].is_move() {
        assert(chain_ok(st, seq![i]));
        lemma_chain_ok(st, seq![i], !heads_only);
        let c = chain(st, seq![i], !heads_only);
        assert forall|j: int| #[trigger] members(c).contains(j) implies 0 <= j < st.orig.len()
            && st.orig[j].is_move() by {
            let k = choose|k: int| 0 <= k < c.len() && c[k] == j;
            assert(c[k] == j);
        }
        assert forall|j: int| #[trigger] members(c.skip(1)).contains(j) implies 0 <= j
            < st.orig.len() && st.orig[j].is_move() by {
            let d = c.skip(1);
            let k = choose|k: int| 0 <= k < d.len() && d[k] == j;
            assert(c[k + 1] == j);
        }
    }
}

pub(crate) proof fn lemma_visits_keep(st: Chains, n: int, heads_only: bool)
    requires
        chains_ok(st),
        forall|j: int| #[trigger] st.removed.contains(j) ==> st.orig[j].is_move(),
        0 <= n <= st.orig.len(),
    ensures
        chains_ok(visits(st, n, heads_only)),
        visits(st, n, heads_only).orig == st.orig,
        forall|j: int| #[trigger]
            visits(st, n, heads_only).removed.contains(j) ==> st.orig[j].is_move(),
    decreases n,
{
    if n > 0 {
        lemma_visits_keep(st, n - 1, heads_only);
        lemma_visit_keeps(visits(st, n - 1, heads_only), n - 1, heads_only);
    }
}

/// Collapsing drops nothing but moves, and changes nothing but the
/// destinations of moves.
pub proof fn law_collapse_touches_moves_only(s: Seq<Action>)
    ensures
        same_sources(settled(s).acts, s),
        forall|i: int| #[trigger]
            settled(s).removed.contains(i) ==> 0 <= i < s.len() && s[i].is_move(),
{
    let st = Chains { orig: s, acts: s, removed: Set::empty(), done: Set::empty() };
    lemma_visits_keep(st, s.len() as int, true);
    lemma_visits_keep(visits(st, s.len() as int, true), s.len() as int, false);
}

/// True when no move takes on what an earlier move left.
pub open spec fn independent_moves(s: Seq<Action>) -> bool {
    forall|i: int, j: int|
        0 <= i < j < s.len() && (#[trigger] s[i]).is_move() && (#[trigger] s[j]).is_move()
            ==> s[i].dest() != s[j].source()
}

proof fn lemma_independent_visits(st: Chains, n: int, heads_only: bool)
    requires
        independent_moves(st.orig),
        st.acts == st.orig,
        st.removed == Set::<int>::empty(),
        0 <= n <= st.orig.len(),
    ensures
        visits(st, n, heads_only).acts == st.orig,
        visits(st, n, heads_only).orig == st.orig,
        visits(st, n, heads_only).removed == Set::<int>::empty(),
    decreases n,
{
    if n > 0 {
        lemma_independent_visits(st, n - 1, heads_only);
        let mid = visits(st, n - 1, heads_only);
        let i = n - 1;
        if mid.acts[i].is_move() {
            lemma_move_from(mid.orig, mid.orig.len() as int, mid.acts[i].dest());
            assert(next_move(mid, i, !heads_only) is None);
            assert(seq![i].last() == i);
            assert(chain(mid, seq![i], !heads_only) == seq![i]);
        }
    }
}

/// Moves that do not chain stay as they are.
pub proof fn law_independent_moves_stay(s: Seq<Action>)
    requires
        independent_moves(s),
    ensures
        collapsed(s) == s,
{
    let st = Chains { orig: s, acts: s, removed: Set::empty(), done: Set::empty() };
    lemma_independent_visits(st, s.len() as int, true);
    lemma_independent_visits(visits(st, s.len() as int, true), s.len() as int, false);
    crate::sift::lemma_sift_all(s, s.len() as int, |i: int| !settled(s).removed.contains(i));
    assert(s.take(s.len() as int) =~= s);
}

/// Without chained moves, simplifying and compacting agree.
pub proof fn law_simplify_is_compact_without_chains(s: Seq<Record>)
    requires
        independent_moves(decomposed(actions_of(s))),
    ensures
        simplified(s) == super::compact::compacted(s),
{
    law_independent_moves_stay(decomposed(actions_of(s)));
}

} // verus!
