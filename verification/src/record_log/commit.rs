//! Committing the record log: the changes it comes to, carried out one after
//! the other.
use super::resolve::{are_changes_of, replayed, resolve, Change};
use super::timeline::{reachable, reached};
use super::types::Record;
use crate::commit::{step_views, Step, StepView};
use crate::error::Error;
use vstd::prelude::*;

verus! {

/// The step that carries a change out. A path that was staged before it was
/// renamed has nothing in base to move.
pub open spec fn step_of(c: Change) -> StepView {
    match c {
        Change::Added { path, ino, .. } => StepView::Place(path@, ino),
        Change::Modified { path, ino, .. } => StepView::Place(path@, ino),
        Change::Deleted(path) => StepView::Remove(path@),
        Change::Renamed { from, to, .. } => StepView::Move {
            from: from@,
            to: to@,
            if_present: true,
        },
        Change::Replaced { from, to, .. } => StepView::Move {
            from: from@,
            to: to@,
            if_present: true,
        },
    }
}

/// The steps that carry the changes out.
pub open spec fn steps_of(s: Seq<Change>) -> Seq<StepView> {
    Seq::new(s.len(), |i: int| step_of(s[i]))
}

/// The step that carries a change out.
pub fn plan_step(change: Change) -> (r: Step)
    ensures
        r@ == step_of(change),
{
    match change {
        Change::Added { path, ino, .. } => Step::Place { path, ino },
        Change::Modified { path, ino, .. } => Step::Place { path, ino },
        Change::Deleted(path) => Step::Remove { path },
        Change::Renamed { from, to, .. } => Step::Move { from, to, if_present: true },
        Change::Replaced { from, to, .. } => Step::Move { from, to, if_present: true },
    }
}

/// The steps of a commit: those of the changes that the reachable records come
/// to. There is nothing to commit where there are none.
pub fn plan_commit(records: Vec<Record>) -> (r: Result<Vec<Step>, Error>)
    ensures
        r matches Ok(v) && exists|cs: Seq<Change>| #[trigger]
            are_changes_of(cs, replayed(reached(records@))) && step_views(v@) == steps_of(cs),
{
    let live = reachable(records);
    let changes = match resolve(live) {
        Ok(v) => v,
        Err(e) => return Err(e),
    };
    let ghost cs = changes@;
    let mut out: Vec<Step> = Vec::new();
    assert(step_views(out@) =~= steps_of(cs.take(0)));
    for change in it: changes
        invariant
            it.seq() == cs,
            step_views(out@) == steps_of(cs.take(it.index() as int)),
    {
        let ghost k = it.index() as int;
        let ghost before = out@;
        let step = plan_step(change);
        out.push(step);
        proof {
            assert(step_views(out@) =~= step_views(before).push(step_of(cs[k])));
            assert(steps_of(cs.take(k + 1)) =~= steps_of(cs.take(k)).push(step_of(cs[k])));
        }
    }
    assert(cs.take(cs.len() as int) =~= cs);
    Ok(out)
}

} // verus!
