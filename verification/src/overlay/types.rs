//! Actions and markers.
use vstd::prelude::*;

verus! {

/// A change to the tree of directory entries.
#[derive(Debug)]
pub enum Action {
    Add { path: String, dtype: Option<u8>, ino: u32 },
    Modify { path: String, dtype: Option<u8>, ino: u32 },
    Delete { path: String, dtype: Option<u8> },
    Rename { src: String, dst: String, dtype: Option<u8> },
    Replace { src: String, dst: String, dtype: Option<u8> },
}

impl Clone for Action {
    fn clone(&self) -> (r: Self)
        ensures
            r == *self,
    {
        match self {
            Action::Add { path, dtype, ino } => Action::Add {
                path: path.clone(),
                dtype: *dtype,
                ino: *ino,
            },
            Action::Modify { path, dtype, ino } => Action::Modify {
                path: path.clone(),
                dtype: *dtype,
                ino: *ino,
            },
            Action::Delete { path, dtype } => Action::Delete { path: path.clone(), dtype: *dtype },
            Action::Rename { src, dst, dtype } => Action::Rename {
                src: src.clone(),
                dst: dst.clone(),
                dtype: *dtype,
            },
            Action::Replace { src, dst, dtype } => Action::Replace {
                src: src.clone(),
                dst: dst.clone(),
                dtype: *dtype,
            },
        }
    }
}

/// A numbered point in the journal.
#[derive(Debug)]
pub enum Marker {
    Checkpoint { gen_id: u64, name: String },
    Restore { gen_id: u64, target_gen: u64 },
}

impl Clone for Marker {
    fn clone(&self) -> (r: Self)
        ensures
            r == *self,
    {
        match self {
            Marker::Checkpoint { gen_id, name } => Marker::Checkpoint {
                gen_id: *gen_id,
                name: name.clone(),
            },
            Marker::Restore { gen_id, target_gen } => Marker::Restore {
                gen_id: *gen_id,
                target_gen: *target_gen,
            },
        }
    }
}

/// A record of the journal: an action or a marker.
#[derive(Debug)]
pub enum Record {
    Action(Action),
    Marker(Marker),
}

/// The actions between two markers.
#[derive(Debug)]
pub struct Segment {
    /// The generation that this segment builds on, 0 for the first segment.
    pub from: u64,
    pub records: Vec<Action>,
}

impl Marker {
    /// The number of the marker.
    pub open spec fn generation(self) -> u64 {
        match self {
            Marker::Checkpoint { gen_id, .. } => gen_id,
            Marker::Restore { gen_id, .. } => gen_id,
        }
    }

    /// The generation that the segment after the marker builds on.
    pub open spec fn builds_on(self) -> u64 {
        match self {
            Marker::Checkpoint { gen_id, .. } => gen_id,
            Marker::Restore { target_gen, .. } => target_gen,
        }
    }
}

impl Action {
    /// True when the action is about `p`, as its path or as an end of a move.
    pub open spec fn is_about(self, p: Seq<char>) -> bool {
        match self {
            Action::Add { path, .. } => path@ == p,
            Action::Modify { path, .. } => path@ == p,
            Action::Delete { path, .. } => path@ == p,
            Action::Rename { src, dst, .. } => src@ == p || dst@ == p,
            Action::Replace { src, dst, .. } => src@ == p || dst@ == p,
        }
    }
}

} // verus!
