//! Whether an operation leaves its source in place.
use vstd::prelude::*;

verus! {

/// What becomes of the source of an operation.
#[derive(Debug, Copy, Clone, PartialEq, Eq, PartialOrd, Ord, Structural)]
pub enum Mode {
    /// The source stays.
    Copy,
    /// The source is gone once the operation has succeeded.
    Move,
}

/// What is done about one file of a batch.
#[derive(Debug, Copy, Clone, PartialEq, Eq, Structural)]
pub enum FileAction {
    /// Copy the source to the destination, over whatever is there.
    Copy,
    /// Rename the source to the destination.
    Rename,
    /// Leave both as they are.
    Skip,
}

/// What is done about a file whose destination exists or not.
///
/// A copy overwrites. A move never does: a destination that exists was moved
/// there before, and moving again is skipped.
pub open spec fn action_for(mode: Mode, destination_exists: bool) -> FileAction {
    match mode {
        Mode::Copy => FileAction::Copy,
        Mode::Move => if destination_exists {
            FileAction::Skip
        } else {
            FileAction::Rename
        },
    }
}

impl AsRef<str> for Mode {
    fn as_ref(&self) -> (name: &str)
        ensures
            name@ == match *self {
                Mode::Copy => "Copy"@,
                Mode::Move => "Move"@,
            },
    {
        match self {
            Mode::Copy => "Copy",
            Mode::Move => "Move",
        }
    }
}

impl Mode {
    /// What to do about a file of a batch, given whether its destination exists.
    pub fn action(self, destination_exists: bool) -> (action: FileAction)
        ensures
            action == action_for(self, destination_exists),
    {
        match self {
            Mode::Copy => FileAction::Copy,
            Mode::Move => if destination_exists {
                FileAction::Skip
            } else {
                FileAction::Rename
            },
        }
    }

    /// Whether the original of a rewritten file is to be removed: under `Move`, and only
    /// once the new file is written in full.
    pub fn removes_original(self, written: bool) -> (removes: bool)
        ensures
            removes == (self == Mode::Move && written),
    {
        match self {
            Mode::Copy => false,
            Mode::Move => written,
        }
    }
}

} // verus!
