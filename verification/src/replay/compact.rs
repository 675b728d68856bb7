//! Compacting records into actions that keep every rename.
use super::passes::{
    actions_of, cancel, cancelled, decompose_rename_modify, decomposed, merge_modifies, merged,
    to_actions,
};
use super::types::{ActionList, Record};
use vstd::prelude::*;

verus! {

/// The action list that records compact to.
pub open spec fn compacted(s: Seq<Record>) -> Seq<super::types::Action> {
    merged(cancelled(decomposed(actions_of(s))))
}

/// Converts journal records into a compacted, ordered action list:
/// a move that is then modified is decomposed, writes that are deleted again
/// cancel, and modifications of one path merge into the last.
pub fn compact(records: Vec<Record>) -> (r: ActionList)
    ensures
        r.0@ == compacted(records@),
{
    let actions = to_actions(records);
    let actions = decompose_rename_modify(actions);
    let actions = cancel(actions);
    let actions = merge_modifies(actions);
    ActionList(actions)
}

} // verus!
