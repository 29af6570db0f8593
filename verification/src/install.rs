//! How a new snapshot takes the place of an old one, so that one of them is always kept.

use vstd::prelude::*;
use crate::codec::{path_failure, path_io};
use crate::error::{plain, Error, ErrorView};

verus! {

broadcast use vstd::string::group_string_axioms;

/// What is tried.
#[derive(Clone, Copy, Debug, PartialEq, Eq, Structural)]
pub enum InstallState {
    /// To give the new file the name of the target.
    Installing,
    /// To move the old file out of the way, to a backup.
    BackingUp,
    /// To give the new file the name, which is free now.
    Replacing,
    /// Nothing more.
    Ended,
}

/// What is done without regard to whether it succeeds.
#[derive(Clone, Copy, Debug, PartialEq, Eq, Structural)]
pub enum Tidying {
    /// To give the backup the name of the target again.
    Restore,
    /// To remove the new file.
    DropTemporary,
    /// To remove the backup.
    DropBackup,
}

/// What follows an attempt: what to tidy up, what to try, and, where that is nothing, what came of it all.
pub struct InstallStep {
    pub tidying: Vec<Tidying>,
    pub state: InstallState,
    pub result: Result<(), Error>,
}

#[verifier::ext_equal]
pub struct InstallStepView {
    pub tidying: Seq<Tidying>,
    pub state: InstallState,
    pub result: Result<(), ErrorView>,
}

impl View for InstallStep {
    type V = InstallStepView;

    open spec fn view(&self) -> InstallStepView {
        InstallStepView { tidying: self.tidying@, state: self.state, result: plain(self.result) }
    }
}

/// The end, after tidying.
pub open spec fn ended(tidying: Seq<Tidying>, result: Result<(), ErrorView>) -> InstallStepView {
    InstallStepView { tidying, state: InstallState::Ended, result }
}

/// The next attempt.
pub open spec fn going_on(state: InstallState) -> InstallStepView {
    InstallStepView { tidying: Seq::empty(), state, result: Ok(()) }
}

/// What follows an attempt that failed for a reason, or succeeded where there is none.
pub open spec fn install_followed(state: InstallState, failure: Option<Seq<char>>, target_exists: bool, target: Seq<char>) -> InstallStepView {
    match (state, failure) {
        (InstallState::Installing, None) => ended(Seq::empty(), Ok(())),
        (InstallState::Installing, Some(reason)) => if target_exists {
            going_on(InstallState::BackingUp)
        } else {
            ended(seq![Tidying::DropTemporary], Err(path_failure("install snapshot"@, target, reason)))
        },
        (InstallState::BackingUp, None) => going_on(InstallState::Replacing),
        (InstallState::BackingUp, Some(reason)) => ended(
            seq![Tidying::DropTemporary],
            Err(path_failure("move previous snapshot"@, target, reason)),
        ),
        (InstallState::Replacing, None) => ended(seq![Tidying::DropBackup], Ok(())),
        (InstallState::Replacing, Some(reason)) => ended(
            seq![Tidying::Restore, Tidying::DropTemporary],
            Err(path_failure("install replacement snapshot"@, target, reason)),
        ),
        (InstallState::Ended, _) => ended(Seq::empty(), Ok(())),
    }
}

pub open spec fn failure_view(failure: Option<&str>) -> Option<Seq<char>> {
    match failure {
        Some(reason) => Some(reason@),
        None => None,
    }
}

fn last_step(tidying: Vec<Tidying>, result: Result<(), Error>) -> (step: InstallStep)
    ensures
        step@ == ended(tidying@, plain(result)),
{
    InstallStep { tidying, state: InstallState::Ended, result }
}

/// What follows an attempt.
pub fn install_next(state: InstallState, failure: Option<&str>, target_exists: bool, target: &str) -> (step: InstallStep)
    ensures
        step@ == install_followed(state, failure_view(failure), target_exists, target@),
{
    let mut tidying: Vec<Tidying> = Vec::new();
    match failure {
        None => match state {
            InstallState::BackingUp => InstallStep { tidying, state: InstallState::Replacing, result: Ok(()) },
            InstallState::Replacing => {
                tidying.push(Tidying::DropBackup);
                last_step(tidying, Ok(()))
            },
            _ => last_step(tidying, Ok(())),
        },
        Some(reason) => match state {
            InstallState::Installing => {
                if target_exists {
                    return InstallStep { tidying, state: InstallState::BackingUp, result: Ok(()) };
                }
                tidying.push(Tidying::DropTemporary);
                last_step(tidying, Err(path_io("install snapshot", target, reason)))
            },
            InstallState::BackingUp => {
                tidying.push(Tidying::DropTemporary);
                last_step(tidying, Err(path_io("move previous snapshot", target, reason)))
            },
            InstallState::Replacing => {
                tidying.push(Tidying::Restore);
                tidying.push(Tidying::DropTemporary);
                last_step(tidying, Err(path_io("install replacement snapshot", target, reason)))
            },
            InstallState::Ended => last_step(tidying, Ok(())),
        },
    }
}

/// The files that take part, each with its contents where it exists.
pub struct Files {
    pub temporary: Option<Seq<u8>>,
    pub target: Option<Seq<u8>>,
    pub backup: Option<Seq<u8>>,
}

/// The files after an attempt.
pub open spec fn attempted(files: Files, state: InstallState, failed: bool) -> Files {
    if failed {
        files
    } else {
        match state {
            InstallState::Installing | InstallState::Replacing => Files {
                temporary: None,
                target: files.temporary,
                backup: files.backup,
            },
            InstallState::BackingUp => Files { temporary: files.temporary, target: None, backup: files.target },
            InstallState::Ended => files,
        }
    }
}

/// The files after the first `count` things to tidy up, where `failed` says which of them failed.
pub open spec fn tidied(files: Files, tidying: Seq<Tidying>, failed: spec_fn(Tidying) -> bool, count: nat) -> Files
    decreases count,
{
    if count == 0 {
        files
    } else {
        let before = tidied(files, tidying, failed, (count - 1) as nat);
        let next = tidying[count - 1];
        if failed(next) {
            before
        } else {
            match next {
                Tidying::Restore => Files { temporary: before.temporary, target: before.backup, backup: None },
                Tidying::DropTemporary => Files { temporary: None, target: before.target, backup: before.backup },
                Tidying::DropBackup => Files { temporary: before.temporary, target: before.target, backup: None },
            }
        }
    }
}

/// The files, and what is said, once nothing more is tried from a state on, where `failures` says why an attempt
/// fails.
pub open spec fn installed(
    files: Files,
    state: InstallState,
    failures: spec_fn(InstallState) -> Option<Seq<char>>,
    failed: spec_fn(Tidying) -> bool,
    target: Seq<char>,
) -> (Files, Result<(), ErrorView>)
    decreases attempts_left(state),
{
    if state is Ended {
        (files, Ok(()))
    } else {
        let failure = failures(state);
        let step = install_followed(state, failure, files.target is Some, target);
        let after = tidied(attempted(files, state, failure is Some), step.tidying, failed, step.tidying.len());
        if step.state is Ended || attempts_left(step.state) >= attempts_left(state) {
            (after, step.result)
        } else {
            installed(after, step.state, failures, failed, target)
        }
    }
}

/// How many attempts can follow at most.
pub open spec fn attempts_left(state: InstallState) -> nat {
    match state {
        InstallState::Installing => 3,
        InstallState::BackingUp => 2,
        InstallState::Replacing => 1,
        InstallState::Ended => 0,
    }
}

/// Whatever fails, no snapshot is lost: where the new one is said to be installed it stands at the target, and
/// where it is not the old one stands there, or in the backup where moving it back failed.
pub proof fn law_one_snapshot_is_kept(
    files: Files,
    failures: spec_fn(InstallState) -> Option<Seq<char>>,
    failed: spec_fn(Tidying) -> bool,
    target: Seq<char>,
)
    requires
        files.temporary is Some,
    ensures
        ({
            let (after, result) = installed(files, InstallState::Installing, failures, failed, target);
            match result {
                Ok(_) => after.target == files.temporary,
                Err(_) => after.target == files.target || (failed(Tidying::Restore) && after.backup == files.target),
            }
        }),
{
    reveal_with_fuel(installed, 4);
    reveal_with_fuel(tidied, 3);
}

} // verus!
