//! Records of the log.
use crate::dtype::DType;
use vstd::prelude::*;

verus! {

/// A named point in the log.
#[derive(Debug, PartialEq, Eq)]
pub struct Checkpoint {
    pub gen_id: u64,
    pub name: String,
}

impl Clone for Checkpoint {
    fn clone(&self) -> (r: Self)
        ensures
            r == *self,
    {
        Checkpoint { gen_id: self.gen_id, name: self.name.clone() }
    }
}

/// A record of the log.
#[derive(Debug)]
pub enum Record {
    /// A path that is new is staged.
    Added { path: String, dtype: Option<DType>, ino: u64 },
    /// A path that exists is staged anew.
    Modified { path: String, dtype: Option<DType>, ino: u64 },
    Deleted { path: String },
    /// A path that is new shows what `base` holds.
    Redirect { path: String, dtype: Option<DType>, base: String },
    /// A path that exists shows what `base` holds.
    Replace { path: String, dtype: Option<DType>, base: String },
    Checkpoint(Checkpoint),
    Restore { gen_id: u64, target_gen: u64 },
}

impl Clone for Record {
    fn clone(&self) -> (r: Self)
        ensures
            r == *self,
    {
        match self {
            Record::Added { path, dtype, ino } => Record::Added {
                path: path.clone(),
                dtype: *dtype,
                ino: *ino,
            },
            Record::Modified { path, dtype, ino } => Record::Modified {
                path: path.clone(),
                dtype: *dtype,
                ino: *ino,
            },
            Record::Deleted { path } => Record::Deleted { path: path.clone() },
            Record::Redirect { path, dtype, base } => Record::Redirect {
                path: path.clone(),
                dtype: *dtype,
                base: base.clone(),
            },
            Record::Replace { path, dtype, base } => Record::Replace {
                path: path.clone(),
                dtype: *dtype,
                base: base.clone(),
            },
            Record::Checkpoint(c) => Record::Checkpoint(c.clone()),
            Record::Restore { gen_id, target_gen } => Record::Restore {
                gen_id: *gen_id,
                target_gen: *target_gen,
            },
        }
    }
}

/// A record as a mathematical value.
pub enum RecordView {
    Added { path: Seq<char>, dtype: Option<DType>, ino: u64 },
    Modified { path: Seq<char>, dtype: Option<DType>, ino: u64 },
    Deleted { path: Seq<char> },
    Redirect { path: Seq<char>, dtype: Option<DType>, base: Seq<char> },
    Replace { path: Seq<char>, dtype: Option<DType>, base: Seq<char> },
    Checkpoint { gen_id: u64, name: Seq<char> },
    Restore { gen_id: u64, target_gen: u64 },
}

impl View for Record {
    type V = RecordView;

    open spec fn view(&self) -> RecordView {
        match self {
            Record::Added { path, dtype, ino } => RecordView::Added {
                path: path@,
                dtype: *dtype,
                ino: *ino,
            },
            Record::Modified { path, dtype, ino } => RecordView::Modified {
                path: path@,
                dtype: *dtype,
                ino: *ino,
            },
            Record::Deleted { path } => RecordView::Deleted { path: path@ },
            Record::Redirect { path, dtype, base } => RecordView::Redirect {
                path: path@,
                dtype: *dtype,
                base: base@,
            },
            Record::Replace { path, dtype, base } => RecordView::Replace {
                path: path@,
                dtype: *dtype,
                base: base@,
            },
            Record::Checkpoint(c) => RecordView::Checkpoint { gen_id: c.gen_id, name: c.name@ },
            Record::Restore { gen_id, target_gen } => RecordView::Restore {
                gen_id: *gen_id,
                target_gen: *target_gen,
            },
        }
    }
}

/// The records as mathematical values.
pub open spec fn record_views(s: Seq<Record>) -> Seq<RecordView> {
    Seq::new(s.len(), |i: int| s[i]@)
}

} // verus!
