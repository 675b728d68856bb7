//! The steps of a commit: how staged changes are carried out on base.
use crate::text::{decimal, plural, to_decimal};
use vstd::prelude::*;
use vstd::string::StringExecFns;

verus! {

/// One step of a commit.
#[derive(Debug)]
pub enum Step {
    /// Put a staged inode at the path.
    Place { path: String, ino: u64 },
    /// Take away what is at the path, if anything is.
    Remove { path: String },
    /// Move what is at one path to another.
    Move {
        from: String,
        to: String,
        /// Whether it is no error that nothing is there to move.
        if_present: bool,
    },
}

/// One step of a commit as a mathematical value.
pub enum StepView {
    Place(Seq<char>, u64),
    Remove(Seq<char>),
    Move { from: Seq<char>, to: Seq<char>, if_present: bool },
}

impl View for Step {
    type V = StepView;

    open spec fn view(&self) -> StepView {
        match self {
            Step::Place { path, ino } => StepView::Place(path@, *ino),
            Step::Remove { path } => StepView::Remove(path@),
            Step::Move { from, to, if_present } => StepView::Move {
                from: from@,
                to: to@,
                if_present: *if_present,
            },
        }
    }
}

/// The steps as mathematical values.
pub open spec fn step_views(s: Seq<Step>) -> Seq<StepView> {
    Seq::new(s.len(), |i: int| s[i]@)
}

/// What is said after a commit.
pub fn committed_message(count: usize) -> (r: String)
    ensures
        r@ == "Committed "@ + decimal(count as nat) + " change"@ + (if count == 1 {
            ""@
        } else {
            "s"@
        }) + "."@,
{
    let d = to_decimal(count as u64);
    "Committed ".to_owned().concat(d.as_str()).concat(" change").concat(plural(count)).concat(".")
}

} // verus!
