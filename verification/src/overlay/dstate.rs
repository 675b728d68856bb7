//! The state of a single entry in the overlay, as shown to the user.
use crate::text::same;
use vstd::prelude::*;

verus! {

/// The state of a single entry in the overlay.
///
/// `in_base` tells whether the base filesystem had something at this path
/// before staging: an entry that is taken away then leaves a tombstone.
#[derive(Debug)]
pub enum Dstate {
    StagedInode { ino: u32, dtype: u8, in_base: bool },
    /// What stands here is at `src` in the base filesystem.
    BasePath { src: String, dtype: u8, in_base: bool },
    Tombstone { dtype: u8 },
    Passthrough,
}

impl Dstate {
    /// The kind of the entry, where it has one.
    pub open spec fn kind(self) -> Option<u8> {
        match self {
            Dstate::StagedInode { dtype, .. } => Some(dtype),
            Dstate::BasePath { dtype, .. } => Some(dtype),
            Dstate::Tombstone { dtype } => Some(dtype),
            Dstate::Passthrough => None,
        }
    }

    /// Whether base had something here.
    pub open spec fn base_had(self) -> bool {
        match self {
            Dstate::StagedInode { in_base, .. } => in_base,
            Dstate::BasePath { in_base, .. } => in_base,
            Dstate::Tombstone { .. } => true,
            Dstate::Passthrough => true,
        }
    }

    /// The entry with another answer to whether base had something here.
    pub open spec fn with_in_base(self, val: bool) -> Dstate {
        match self {
            Dstate::StagedInode { ino, dtype, .. } => Dstate::StagedInode { ino, dtype, in_base: val },
            Dstate::BasePath { src, dtype, .. } => Dstate::BasePath { src, dtype, in_base: val },
            _ => self,
        }
    }

    /// The kind of the entry.
    pub fn dtype(&self) -> (r: u8)
        requires
            self.kind() is Some,
        ensures
            self.kind() == Some(r),
    {
        match self {
            Dstate::StagedInode { dtype, .. } => *dtype,
            Dstate::BasePath { dtype, .. } => *dtype,
            Dstate::Tombstone { dtype } => *dtype,
            Dstate::Passthrough => 0,
        }
    }

    /// Whether base had something here.
    pub fn in_base(&self) -> (r: bool)
        ensures
            r == self.base_had(),
    {
        match self {
            Dstate::StagedInode { in_base, .. } => *in_base,
            Dstate::BasePath { in_base, .. } => *in_base,
            Dstate::Tombstone { .. } | Dstate::Passthrough => true,
        }
    }

    /// The staged inode, where the entry carries one.
    pub fn ino(&self) -> (r: Option<u32>)
        ensures
            r == (match *self {
                Dstate::StagedInode { ino, .. } => Some(ino),
                _ => None,
            }),
    {
        match self {
            Dstate::StagedInode { ino, .. } => Some(*ino),
            _ => None,
        }
    }

    /// True when the entry at `path` involves `query`, as its place or its source.
    pub fn matches_path(&self, path: &str, query: &str) -> (r: bool)
        ensures
            r == (path@ == query@ || match *self {
                Dstate::BasePath { src, .. } => src@ == query@,
                _ => false,
            }),
    {
        match self {
            Dstate::BasePath { src, .. } => same(path, query) || same(src.as_str(), query),
            _ => same(path, query),
        }
    }

    /// Records whether base had something here; tombstones and entries without
    /// a state of their own do not change.
    pub fn set_in_base(&mut self, val: bool)
        ensures
            *final(self) == old(self).with_in_base(val),
    {
        match self {
            Dstate::StagedInode { in_base, .. } => {
                *in_base = val;
            },
            Dstate::BasePath { in_base, .. } => {
                *in_base = val;
            },
            Dstate::Tombstone { .. } | Dstate::Passthrough => {},
        }
    }
}

/// Where it can be said whether base had something at an entry, saying so is
/// heeded, the last time counts, and nothing else about the entry changes.
/// A tombstone always covers something in base.
pub proof fn law_base_is_heeded(d: Dstate, a: bool, b: bool)
    ensures
        d is StagedInode || d is BasePath ==> d.with_in_base(a).base_had() == a,
        d is Tombstone || d is Passthrough ==> d.with_in_base(a) == d && d.base_had(),
        d.with_in_base(a).with_in_base(b) == d.with_in_base(b),
        d.with_in_base(d.base_had()) == d,
        d.with_in_base(a).kind() == d.kind(),
        d.kind() is None <==> d is Passthrough,
{
}

} // verus!
