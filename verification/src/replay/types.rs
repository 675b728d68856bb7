//! Records, actions and changes.
use crate::dtype::DType;
use vstd::prelude::*;

verus! {

/// A journal record.
#[derive(Debug)]
pub enum Record {
    Added { path: String, dtype: Option<DType>, ino: u64 },
    Modified { path: String, dtype: Option<DType>, ino: u64 },
    Deleted { path: String },
    Redirect { old: String, new: String, dtype: Option<DType> },
    Replace { old: String, new: String, dtype: Option<DType> },
    Checkpoint { gen_id: u64, name: String },
    Restore { gen_id: u64, target_gen: u64 },
}

impl Clone for Record {
    fn clone(&self) -> (r: Self)
        ensures
            r == *self,
    {
        match self {
            Record::Added { path, dtype, ino } => Record::Added {
                path: path.clone(),
                dtype: *dtype,
                ino: *ino,
            },
            Record::Modified { path, dtype, ino } => Record::Modified {
                path: path.clone(),
                dtype: *dtype,
                ino: *ino,
            },
            Record::Deleted { path } => Record::Deleted { path: path.clone() },
            Record::Redirect { old, new, dtype } => Record::Redirect {
                old: old.clone(),
                new: new.clone(),
                dtype: *dtype,
            },
            Record::Replace { old, new, dtype } => Record::Replace {
                old: old.clone(),
                new: new.clone(),
                dtype: *dtype,
            },
            Record::Checkpoint { gen_id, name } => Record::Checkpoint {
                gen_id: *gen_id,
                name: name.clone(),
            },
            Record::Restore { gen_id, target_gen } => Record::Restore {
                gen_id: *gen_id,
                target_gen: *target_gen,
            },
        }
    }
}

/// A parsed journal: its records in file order.
#[derive(Debug)]
pub struct RawJournal(pub Vec<Record>);

/// An operation to replay on the base filesystem.
#[derive(Debug)]
pub enum Action {
    Add { path: String, ino: u64, dtype: DType },
    Modify { path: String, ino: u64, dtype: DType },
    Delete { path: String },
    Rename { old: String, new: String, dtype: DType },
    Replace { old: String, new: String, dtype: DType },
}

/// Actions in the order in which they are to be replayed.
#[derive(Debug)]
pub struct ActionList(pub Vec<Action>);

/// The net effect on one path.
#[derive(Debug)]
pub enum Change {
    Added { ino: u64, dtype: DType },
    Modified { ino: u64, dtype: DType },
    Deleted,
    Renamed { from: String, dtype: DType },
    Replaced { from: String, dtype: DType },
}

/// One change for each changed path.
#[derive(Debug)]
pub struct Changeset(pub Vec<(String, Change)>);

/// The data records between two markers.
#[derive(Debug)]
pub struct Segment {
    /// The generation that this segment builds on, 0 for the first segment.
    pub from: u64,
    /// Its records: no checkpoints and no restores.
    pub records: Vec<Record>,
}

/// The segments that survive restores.
#[derive(Debug)]
pub struct LiveSegments(pub Vec<Segment>);

impl Action {
    /// True for the two kinds of move.
    pub open spec fn is_move(self) -> bool {
        self is Rename || self is Replace
    }

    /// The path that a move takes from, and that any other action is about.
    pub open spec fn source(self) -> Seq<char> {
        match self {
            Action::Add { path, .. } => path@,
            Action::Modify { path, .. } => path@,
            Action::Delete { path } => path@,
            Action::Rename { old, .. } => old@,
            Action::Replace { old, .. } => old@,
        }
    }

    /// The path that the action leaves something (or nothing) at.
    pub open spec fn dest(self) -> Seq<char> {
        match self {
            Action::Add { path, .. } => path@,
            Action::Modify { path, .. } => path@,
            Action::Delete { path } => path@,
            Action::Rename { new, .. } => new@,
            Action::Replace { new, .. } => new@,
        }
    }
}

} // verus!
