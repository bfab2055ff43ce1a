//! Putting the segment files of one log in the place of another's.
//!
//! The files of the live directory are replaced in steps, each of which
//! works on a whole directory and may fail.  The caller performs a step and
//! reports whether it went through; `ReplaceStep::after` says what to do
//! next.  The old files are copied to a backup before the first of them is
//! deleted, and a failure after that point is answered by putting the backup
//! back before the failure is reported.

use vstd::prelude::*;

verus! {

/// One step of a replacement, or one of its two ends.
#[derive(Debug, Clone, Copy, PartialEq, Eq, Structural)]
pub enum ReplaceStep {
    /// Flush the open segment files of the live directory.
    Flush,
    /// Copy every segment file of the live directory to the backup directory.
    Backup,
    /// Delete every segment file of the live directory.
    Clear,
    /// Copy every segment file of the new log to the live directory.
    Install,
    /// Open the segment files of the live directory, in the order of their
    /// ids.
    Reopen,
    /// After a failure: delete every segment file of the live directory,
    /// whatever has got there.
    Discard,
    /// After a failure: copy every segment file of the backup directory to
    /// the live directory.
    Restore,
    /// The end: the new log is in place.
    Done,
    /// The end: the replacement has failed, and the first failure is to be
    /// reported.
    Failed,
}

impl ReplaceStep {
    /// The step that a replacement starts with.
    pub open spec fn first() -> ReplaceStep {
        ReplaceStep::Flush
    }

    /// Whether nothing is left to do.
    pub open spec fn is_end(self) -> bool {
        self == ReplaceStep::Done || self == ReplaceStep::Failed
    }

    /// What follows the step, given whether it went through.
    ///
    /// While all goes well the steps are flush, backup, clear, install and
    /// reopen.  A failure of clear or install is followed by discard and
    /// restore, and then by the failed end, whether those went through or
    /// not; any other failure leads to the failed end at once.
    pub open spec fn next(self, went_through: bool) -> ReplaceStep {
        match self {
            ReplaceStep::Flush => if went_through {
                ReplaceStep::Backup
            } else {
                ReplaceStep::Failed
            },
            ReplaceStep::Backup => if went_through {
                ReplaceStep::Clear
            } else {
                ReplaceStep::Failed
            },
            ReplaceStep::Clear => if went_through {
                ReplaceStep::Install
            } else {
                ReplaceStep::Discard
            },
            ReplaceStep::Install => if went_through {
                ReplaceStep::Reopen
            } else {
                ReplaceStep::Discard
            },
            ReplaceStep::Reopen => if went_through {
                ReplaceStep::Done
            } else {
                ReplaceStep::Failed
            },
            ReplaceStep::Discard => if went_through {
                ReplaceStep::Restore
            } else {
                ReplaceStep::Failed
            },
            ReplaceStep::Restore => ReplaceStep::Failed,
            ReplaceStep::Done => ReplaceStep::Done,
            ReplaceStep::Failed => ReplaceStep::Failed,
        }
    }

    /// The step that a replacement starts with.
    pub fn start() -> (step: ReplaceStep)
        ensures
            step == ReplaceStep::first(),
    {
        ReplaceStep::Flush
    }

    /// Whether nothing is left to do.
    pub fn ended(&self) -> (end: bool)
        ensures
            end == self.is_end(),
    {
        match self {
            ReplaceStep::Done => true,
            ReplaceStep::Failed => true,
            _ => false,
        }
    }

    /// What to do after this step, given whether it went through.
    pub fn after(&self, went_through: bool) -> (step: ReplaceStep)
        ensures
            step == self.next(went_through),
    {
        match self {
            ReplaceStep::Flush => if went_through {
                ReplaceStep::Backup
            } else {
                ReplaceStep::Failed
            },
            ReplaceStep::Backup => if went_through {
                ReplaceStep::Clear
            } else {
                ReplaceStep::Failed
            },
            ReplaceStep::Clear => if went_through {
                ReplaceStep::Install
            } else {
                ReplaceStep::Discard
            },
            ReplaceStep::Install => if went_through {
                ReplaceStep::Reopen
            } else {
                ReplaceStep::Discard
            },
            ReplaceStep::Reopen => if went_through {
                ReplaceStep::Done
            } else {
                ReplaceStep::Failed
            },
            ReplaceStep::Discard => if went_through {
                ReplaceStep::Restore
            } else {
                ReplaceStep::Failed
            },
            ReplaceStep::Restore => ReplaceStep::Failed,
            ReplaceStep::Done => ReplaceStep::Done,
            ReplaceStep::Failed => ReplaceStep::Failed,
        }
    }
}

/// What is known of the segment files of a directory.
pub enum Files {
    /// The directory holds these segments, by id.
    Holds(Seq<Seq<u8>>),
    /// A step on the directory has failed half way.
    Unknown,
}

/// The live directory and the backup directory.
pub struct Directories {
    pub live: Files,
    pub backup: Files,
}

/// The directories after a step, given whether it went through, where `new`
/// are the segments of the log that is to take the place.  A step that goes
/// through does what it is named for; a step that fails leaves the directory
/// that it writes to unknown.
pub open spec fn step_effect(
    step: ReplaceStep,
    went_through: bool,
    before: Directories,
    new: Seq<Seq<u8>>,
) -> Directories {
    match step {
        ReplaceStep::Backup => Directories {
            live: before.live,
            backup: if went_through {
                before.live
            } else {
                Files::Unknown
            },
        },
        ReplaceStep::Clear | ReplaceStep::Discard => Directories {
            live: if went_through {
                Files::Holds(Seq::empty())
            } else {
                Files::Unknown
            },
            backup: before.backup,
        },
        ReplaceStep::Install => Directories {
            live: if went_through {
                Files::Holds(new)
            } else {
                Files::Unknown
            },
            backup: before.backup,
        },
        ReplaceStep::Restore => Directories {
            live: if went_through {
                before.backup
            } else {
                Files::Unknown
            },
            backup: before.backup,
        },
        _ => before,
    }
}

/// Where a replacement that stands at `step` ends, and with what in the
/// directories, where `goes` says of each step whether it goes through.  The
/// walk takes `limit` steps at most.
pub open spec fn at_end(
    step: ReplaceStep,
    directories: Directories,
    new: Seq<Seq<u8>>,
    goes: spec_fn(ReplaceStep) -> bool,
    limit: nat,
) -> (ReplaceStep, Directories)
    decreases limit,
{
    if step.is_end() || limit == 0 {
        (step, directories)
    } else {
        at_end(
            step.next(goes(step)),
            step_effect(step, goes(step), directories, new),
            new,
            goes,
            (limit - 1) as nat,
        )
    }
}

/// A replacement of the segments `old` by `new` ends after seven steps at
/// most, and it leaves the live directory with all of the one or all of the
/// other unless undoing itself fails:
/// - where flush, backup, clear, install and reopen go through, it ends with
///   `Done` and the live directory holds `new`;
/// - where only reopen fails, it ends with `Failed` and the live directory
///   holds `new`;
/// - where flush or backup fails, or clear or install fails and discard and
///   restore go through, it ends with `Failed` and the live directory holds
///   `old`.
pub proof fn law_replacement_is_all_or_nothing(
    old: Seq<Seq<u8>>,
    new: Seq<Seq<u8>>,
    goes: spec_fn(ReplaceStep) -> bool,
)
    ensures
        ({
            let start = Directories { live: Files::Holds(old), backup: Files::Unknown };
            let (end, directories) = at_end(ReplaceStep::first(), start, new, goes, 7);
            let installed = goes(ReplaceStep::Flush) && goes(ReplaceStep::Backup) && goes(
                ReplaceStep::Clear,
            ) && goes(ReplaceStep::Install);
            let untouched = !goes(ReplaceStep::Flush) || !goes(ReplaceStep::Backup);
            let undone = goes(ReplaceStep::Discard) && goes(ReplaceStep::Restore);
            &&& end.is_end()
            &&& end == ReplaceStep::Done <==> installed && goes(ReplaceStep::Reopen)
            &&& installed ==> directories.live == Files::Holds(new)
            &&& !installed && (untouched || undone) ==> directories.live == Files::Holds(old)
        }),
{
    reveal_with_fuel(at_end, 8);
}

} // verus!
