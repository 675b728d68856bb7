//! Committing the overlay: the live actions, carried out one after the other.
use super::journal::{live_between, Journal};
use super::path::names;
use super::tree::{after_actions, after_segments, TreeView};
use super::types::{Action, Segment};
use super::view::{
    all_carried_out, all_fit, base_files, deleted, law_tree_shows_commit, moved, root, seen,
    written, Files, Paths,
};
use crate::commit::{step_views, Step, StepView};
use vstd::prelude::*;

verus! {

/// The step that carries an action out.
pub open spec fn step_of(a: Action) -> StepView {
    match a {
        Action::Add { path, ino, .. } => StepView::Place(path@, ino as u64),
        Action::Modify { path, ino, .. } => StepView::Place(path@, ino as u64),
        Action::Delete { path, .. } => StepView::Remove(path@),
        Action::Rename { src, dst, .. } => StepView::Move {
            from: src@,
            to: dst@,
            if_present: false,
        },
        Action::Replace { src, dst, .. } => StepView::Move {
            from: src@,
            to: dst@,
            if_present: false,
        },
    }
}

/// The actions of the segments, one after the other.
pub open spec fn actions_of(s: Seq<Segment>) -> Seq<Action>
    decreases s.len(),
{
    if s.len() == 0 {
        Seq::empty()
    } else {
        actions_of(s.drop_last()) + s.last().records@
    }
}

/// The steps that carry the actions out.
pub open spec fn steps_of(s: Seq<Action>) -> Seq<StepView> {
    Seq::new(s.len(), |i: int| step_of(s[i]))
}

/// The step that carries an action out.
pub fn plan_step(action: Action) -> (r: Step)
    ensures
        r@ == step_of(action),
{
    match action {
        Action::Add { path, ino, .. } => Step::Place { path, ino: ino as u64 },
        Action::Modify { path, ino, .. } => Step::Place { path, ino: ino as u64 },
        Action::Delete { path, .. } => Step::Remove { path },
        Action::Rename { src, dst, .. } => Step::Move { from: src, to: dst, if_present: false },
        Action::Replace { src, dst, .. } => Step::Move { from: src, to: dst, if_present: false },
    }
}

/// The steps of a commit: those of all live actions, in the order of the
/// journal. There is nothing to commit where there are none.
pub fn plan_commit(journal: Journal) -> (r: Vec<Step>)
    requires
        journal.wf(),
    ensures
        step_views(r@) == steps_of(
            actions_of(
                live_between(
                    journal.segments@,
                    journal.markers.0@,
                    0,
                    journal.segments@.len() as int,
                ),
            ),
        ),
{
    let n: usize = journal.segments.len();
    let live = journal.into_live_segments_range(0, n);
    let ghost segs = live@;
    let mut out: Vec<Step> = Vec::new();
    assert(step_views(out@) =~= steps_of(actions_of(segs.take(0))));
    for seg in it: live
        invariant
            it.seq() == segs,
            step_views(out@) == steps_of(actions_of(segs.take(it.index() as int))),
    {
        let ghost k = it.index() as int;
        let ghost done = actions_of(segs.take(k));
        let ghost acts = seg.records@;
        assert(done + acts.take(0) =~= done);
        for action in jt: seg.records
            invariant
                jt.seq() == acts,
                step_views(out@) == steps_of(done + acts.take(jt.index() as int)),
        {
            let ghost j = jt.index() as int;
            let ghost before = out@;
            let step = plan_step(action);
            out.push(step);
            proof {
                assert(done + acts.take(j + 1) =~= (done + acts.take(j)).push(acts[j]));
                assert(step_views(out@) =~= step_views(before).push(step_of(acts[j])));
                assert(steps_of((done + acts.take(j)).push(acts[j])) =~= steps_of(
                    done + acts.take(j),
                ).push(step_of(acts[j])));
            }
        }
        proof {
            assert(acts.take(acts.len() as int) =~= acts);
            assert(segs.take(k + 1).drop_last() =~= segs.take(k));
            assert(segs.take(k + 1).last() == segs[k]);
        }
    }
    assert(segs.take(segs.len() as int) =~= segs);
    out
}

// ── Laws ─────────────────────────────────────────────────────────────

/// What stands where after a step.
pub open spec fn step_done(f: Files, s: StepView) -> Files {
    match s {
        StepView::Place(path, ino) => written(f, names(path), ino as u32),
        StepView::Remove(path) => deleted(f, names(path)),
        StepView::Move { from, to, .. } => moved(f, names(from), names(to)),
    }
}

/// What stands where after the steps, one after the other.
pub open spec fn steps_done(f: Files, s: Seq<StepView>) -> Files
    decreases s.len(),
{
    if s.len() == 0 {
        f
    } else {
        step_done(steps_done(f, s.drop_last()), s.last())
    }
}

/// The steps of actions do what the actions say.
pub proof fn law_steps_carry_actions_out(f: Files, s: Seq<Action>)
    ensures
        steps_done(f, steps_of(s)) == all_carried_out(f, s),
    decreases s.len(),
{
    if s.len() > 0 {
        law_steps_carry_actions_out(f, s.drop_last());
        assert(steps_of(s).drop_last() =~= steps_of(s.drop_last()));
    }
}

proof fn lemma_actions_appended(t: TreeView, a: Seq<Action>, b: Seq<Action>)
    ensures
        after_actions(t, a + b) == after_actions(after_actions(t, a), b),
    decreases b.len(),
{
    if b.len() == 0 {
        assert(a + b =~= a);
    } else {
        lemma_actions_appended(t, a, b.drop_last());
        assert((a + b).drop_last() =~= a + b.drop_last());
    }
}

/// The tree of segments is that of their actions.
pub proof fn law_segments_are_actions(t: TreeView, s: Seq<Segment>)
    ensures
        after_segments(t, s) == after_actions(t, actions_of(s)),
    decreases s.len(),
{
    if s.len() > 0 {
        law_segments_are_actions(t, s.drop_last());
        lemma_actions_appended(t, actions_of(s.drop_last()), s.last().records@);
    }
}

/// What the tree of the live segments shows over base is what the steps of
/// their commit leave there.
pub proof fn law_commit_gives_what_is_shown(base: Paths, live: Seq<Segment>, q: Seq<Seq<char>>)
    requires
        all_fit(base, actions_of(live)),
    ensures
        steps_done(base_files(base), steps_of(actions_of(live)))(q) == seen(
            base,
            after_segments(Map::empty(), live),
            root(),
            q,
        ),
{
    law_steps_carry_actions_out(base_files(base), actions_of(live));
    law_segments_are_actions(Map::empty(), live);
    law_tree_shows_commit(base, actions_of(live));
}

} // verus!
