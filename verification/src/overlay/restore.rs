//! Going back to an earlier marker.
use super::journal::{law_restore_gives_tree_back, live_at, live_between, Journal};
use super::markers::{in_sequence, lookup, restores_go_back};
use super::tree::{after_segments, DirTree, TreeView};
use super::types::{Marker, Segment};
use crate::error::Error;
use crate::text::{decimal, number, plural, to_decimal};
use vstd::prelude::*;
use vstd::string::StringExecFns;

verus! {

/// What a marker is called.
pub open spec fn marker_label(ms: Seq<Marker>, g: u64) -> Seq<char> {
    if g < ms.len() {
        match ms[g as int] {
            Marker::Checkpoint { name, .. } => "checkpoint \""@ + name@ + "\""@,
            Marker::Restore { gen_id, target_gen } => "restore ["@ + decimal(gen_id as nat)
                + "] (restored to ["@ + decimal(target_gen as nat) + "])"@,
        }
    } else {
        "marker ["@ + decimal(g as nat) + "]"@
    }
}

/// What a marker is called.
pub fn label_of_marker(marker: Option<&Marker>, g: u64) -> (r: String)
    ensures
        r@ == (match marker {
            Some(Marker::Checkpoint { name, .. }) => "checkpoint \""@ + name@ + "\""@,
            Some(Marker::Restore { gen_id, target_gen }) => "restore ["@ + decimal(*gen_id as nat)
                + "] (restored to ["@ + decimal(*target_gen as nat) + "])"@,
            None => "marker ["@ + decimal(g as nat) + "]"@,
        }),
{
    match marker {
        Some(Marker::Checkpoint { name, .. }) => "checkpoint \"".to_owned().concat(
            name.as_str(),
        ).concat("\""),
        Some(Marker::Restore { gen_id, target_gen }) => {
            let a = to_decimal(*gen_id);
            let b = to_decimal(*target_gen);
            "restore [".to_owned().concat(a.as_str()).concat("] (restored to [").concat(
                b.as_str(),
            ).concat("])")
        },
        None => {
            let a = to_decimal(g);
            "marker [".to_owned().concat(a.as_str()).concat("]")
        },
    }
}

/// What is said after a restore.
pub fn restored_message(label: &str, count: usize) -> (r: String)
    ensures
        r@ == "Restored to "@ + label@ + " ("@ + decimal(count as nat) + " staged change"@ + (
        if count == 1 {
            ""@
        } else {
            "s"@
        }) + ")."@,
{
    let d = to_decimal(count as u64);
    "Restored to ".to_owned().concat(label).concat(" (").concat(d.as_str()).concat(
        " staged change",
    ).concat(plural(count)).concat(").")
}

/// A restore that has been worked out.
#[derive(Debug)]
pub struct RestorePlan {
    /// The generation of the marker.
    pub target_gen: u64,
    /// What the marker is called.
    pub label: String,
    /// What is staged there.
    pub tree: DirTree,
}

/// What is staged at a generation.
pub open spec fn tree_at(segments: Seq<Segment>, ms: Seq<Marker>, g: u64) -> TreeView {
    after_segments(
        Map::empty(),
        if g < ms.len() {
            live_at(segments, ms, g as int)
        } else {
            live_between(segments, ms, 0, segments.len() as int)
        },
    )
}

/// True when the restores before the marker in question go back.
pub open spec fn target_in_order(ms: Seq<Marker>, name: Seq<char>) -> bool {
    match lookup(ms, name) {
        Some(g) => g < ms.len() ==> restores_go_back(ms, 0, g + 1, g as int),
        None => true,
    }
}

/// Works out a restore. The marker is looked for among all, reachable or not,
/// so that a restore can be undone; what is staged there follows from the
/// markers up to it alone.
pub fn plan_restore(journal: Journal, marker_name: &str) -> (r: Result<RestorePlan, Error>)
    requires
        journal.wf(),
        target_in_order(journal.markers.0@, marker_name@),
    ensures
        match (r, lookup(journal.markers.0@, marker_name@)) {
            (Ok(plan), Some(g)) => plan.target_gen == g && plan.label@ == marker_label(
                journal.markers.0@,
                g,
            ) && plan.tree@ == tree_at(journal.segments@, journal.markers.0@, g),
            (Err(Error::MarkerNotFound(n)), None) => n@ == (match number(marker_name@) {
                Some(g) => decimal(g as nat),
                None => marker_name@,
            }),
            _ => false,
        },
{
    let target_gen = match journal.markers.find_marker(marker_name) {
        Ok(g) => g,
        Err(e) => return Err(e),
    };
    let marker: Option<&Marker> = if target_gen < journal.markers.len() as u64 {
        journal.markers.get(target_gen as usize)
    } else {
        None
    };
    let label = label_of_marker(marker, target_gen);
    let tree = journal.into_tree_at(target_gen);
    Ok(RestorePlan { target_gen, label, tree })
}

/// What a restore to a marker stages is what is staged once the restore itself
/// is the last marker of the journal, with nothing after it: going back really
/// goes back.
pub proof fn law_plan_is_what_comes_after(
    segments: Seq<Segment>,
    ms: Seq<Marker>,
    g: u64,
    after: Segment,
)
    requires
        in_sequence(ms),
        segments.len() == ms.len(),
        g < ms.len() <= u64::MAX,
        after.records@.len() == 0,
    ensures
        tree_at(segments, ms, g) == after_segments(
            Map::empty(),
            live_between(
                segments.push(after),
                ms.push(Marker::Restore { gen_id: ms.len() as u64, target_gen: g }),
                0,
                segments.len() as int + 1,
            ),
        ),
{
    law_restore_gives_tree_back(segments, ms, g, after);
}

} // verus!
