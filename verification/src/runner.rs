//! Running a built archive: which executable is meant and in which mode it
//! is run. Starting and watching the process is the caller's part.

use crate::text::{contains, occurs_in};
use vstd::prelude::*;

verus! {

/// Seconds to wait before a watched process is started again.
pub const RESTART_DELAY_SECS: u64 = 2;

/// How a built archive is run.
#[derive(Debug, Clone, Copy, PartialEq, Eq, Structural)]
pub enum RunnerMode {
    /// The process is started again whenever it ends.
    Watchdog,
    /// The process is started once and left alone.
    Detach,
}

/// What a run tells its caller.
#[derive(Debug, Clone)]
pub enum RunnerStatus {
    Starting(String),
    Running(u32),
    Restarting,
    Detached,
    Error(String),
}

/// What a caller may fix in advance of a run.
pub struct RunArgs {
    pub target: Option<String>,
    pub silent: bool,
    pub detach: bool,
}

/// A mode, and whether the console is to be hidden.
#[derive(Debug, Clone, Copy, PartialEq, Eq, Structural)]
pub struct RunPlan {
    pub mode: RunnerMode,
    pub silent: bool,
}

/// Why no executable could be named.
#[derive(Debug, Clone, Copy, PartialEq, Eq, Structural)]
pub enum TargetError {
    /// There is no executable to choose from.
    NoExecutables,
    /// No executable's name holds what was asked for.
    NoMatch,
}

/// The plan that the flags fix: detaching comes before silence. `None` where
/// neither flag is set and the user is to be asked.
pub fn mode_from_flags(args: &RunArgs) -> (plan: Option<RunPlan>)
    ensures
        plan == if args.detach {
            Some(RunPlan { mode: RunnerMode::Detach, silent: false })
        } else if args.silent {
            Some(RunPlan { mode: RunnerMode::Watchdog, silent: true })
        } else {
            None::<RunPlan>
        },
{
    if args.detach {
        Some(RunPlan { mode: RunnerMode::Detach, silent: false })
    } else if args.silent {
        Some(RunPlan { mode: RunnerMode::Watchdog, silent: true })
    } else {
        None
    }
}

/// The plan for the user's choice from the menu: watched and visible,
/// watched and hidden, or detached. Any other number means the first.
pub fn mode_from_choice(selection: usize) -> (plan: RunPlan)
    ensures
        plan == if selection == 1 {
            RunPlan { mode: RunnerMode::Watchdog, silent: true }
        } else if selection == 2 {
            RunPlan { mode: RunnerMode::Detach, silent: false }
        } else {
            RunPlan { mode: RunnerMode::Watchdog, silent: false }
        },
{
    if selection == 1 {
        RunPlan { mode: RunnerMode::Watchdog, silent: true }
    } else if selection == 2 {
        RunPlan { mode: RunnerMode::Detach, silent: false }
    } else {
        RunPlan { mode: RunnerMode::Watchdog, silent: false }
    }
}

/// The first name, from the `from`-th on, that holds `hint`.
pub open spec fn first_hit(names: Seq<String>, hint: Seq<char>, from: int) -> Option<int>
    decreases names.len() - from,
{
    if from < 0 || from >= names.len() {
        None
    } else if occurs_in(hint, names[from]@) {
        Some(from)
    } else {
        first_hit(names, hint, from + 1)
    }
}

/// The indices, among the first `n` names, of those that hold `hint`.
pub open spec fn hits(names: Seq<String>, hint: Seq<char>, n: int) -> Seq<usize>
    decreases n,
{
    if n <= 0 {
        Seq::empty()
    } else {
        let before = hits(names, hint, n - 1);
        if occurs_in(hint, names[n - 1]@) {
            before.push((n - 1) as usize)
        } else {
            before
        }
    }
}

/// All the names that hold `hint`, by their indices in order. More than one
/// means that the hint is ambiguous.
pub fn matching_targets(names: &Vec<String>, hint: &str) -> (found: Vec<usize>)
    ensures
        found@ == hits(names@, hint@, names@.len() as int),
{
    let mut found: Vec<usize> = Vec::new();
    let mut i: usize = 0;
    while i < names.len()
        invariant
            i <= names.len(),
            found@ == hits(names@, hint@, i as int),
        decreases names.len() - i,
    {
        if contains(names[i].as_str(), hint) {
            found.push(i);
        }
        i = i + 1;
    }
    found
}

/// Names the executable to run among `names`, the file names found, in the
/// order in which the caller lists them. With a hint, the first name that
/// holds it is picked, also where several do. Without one, the user is to be
/// asked: `Ok(None)`.
pub fn resolve_target(names: &Vec<String>, hint: &Option<String>) -> (r: Result<
    Option<usize>,
    TargetError,
>)
    ensures
        names@.len() == 0 ==> r == Err::<Option<usize>, TargetError>(TargetError::NoExecutables),
        names@.len() > 0 && hint.is_none() ==> r == Ok::<Option<usize>, TargetError>(None),
        names@.len() > 0 && hint.is_some() ==> r == match first_hit(
            names@,
            hint.unwrap()@,
            0,
        ) {
            Some(i) => Ok::<Option<usize>, TargetError>(Some(i as usize)),
            None => Err::<Option<usize>, TargetError>(TargetError::NoMatch),
        },
{
    if names.len() == 0 {
        return Err(TargetError::NoExecutables);
    }
    let wanted = match hint {
        None => {
            return Ok(None);
        },
        Some(h) => h,
    };
    let mut i: usize = 0;
    while i < names.len()
        invariant
            i <= names.len(),
            names@.len() > 0,
            hint.is_some(),
            hint.unwrap()@ == wanted@,
            first_hit(names@, wanted@, 0) == first_hit(names@, wanted@, i as int),
        decreases names.len() - i,
    {
        if contains(names[i].as_str(), wanted.as_str()) {
            assert(first_hit(names@, wanted@, i as int) == Some(i as int));
            return Ok(Some(i));
        }
        i = i + 1;
    }
    Err(TargetError::NoMatch)
}

} // verus!
