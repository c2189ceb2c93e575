//! Data structures for a derivation build.
//!
//! A derivation build is the process of realizing a derivation to check whether it builds.
//! Each attempt is identified by a [`DrvBuildId`]; every change of its state is recorded as a
//! [`DrvBuildEvent`], and the latest event of a build is its current state.
use vstd::prelude::*;

use crate::drv::DrvId;
use crate::git::{GitCommit, GitRepo};

verus! {

/// The result of building a derivation: whether the build command exited with status `0`.
#[derive(Clone, Copy, Debug, PartialEq, Eq, Structural)]
pub enum DrvBuildResult {
    /// The derivation built successfully.
    Success,
    /// The derivation failed to build.
    Failure,
}

impl DrvBuildResult {
    /// `Ok(())` for a success and `Err(())` for a failure.
    pub fn as_result(&self) -> (r: Result<(), ()>)
        ensures
            r is Ok <==> *self == DrvBuildResult::Success,
    {
        match self {
            DrvBuildResult::Success => Ok(()),
            DrvBuildResult::Failure => Err(()),
        }
    }

    pub fn is_success(&self) -> (r: bool)
        ensures
            r <==> *self == DrvBuildResult::Success,
    {
        matches!(self, DrvBuildResult::Success)
    }

    pub fn is_failure(&self) -> (r: bool)
        ensures
            r <==> *self == DrvBuildResult::Failure,
    {
        matches!(self, DrvBuildResult::Failure)
    }
}

/// Possible causes for why a derivation build was interrupted.
#[derive(Clone, Copy, Debug, PartialEq, Eq, Structural)]
pub enum DrvBuildInterruptionKind {
    /// The build process ran out of memory and was killed by the system.
    OutOfMemory,
    /// The build process timed out and was killed by the scheduler.
    Timeout,
    /// The scheduler shut down gracefully and cancelled the build.
    Cancelled,
    /// The build process died for unknown reasons.
    ProcessDeath,
    /// The scheduler process died while the build was running.
    SchedulerDeath,
}

/// The states a derivation build can be in.
#[derive(Clone, Copy, Debug, PartialEq, Eq, Structural)]
pub enum DrvBuildState {
    /// Waiting until all dependencies have been built.
    Queued,
    /// Ready to be picked up by a builder.
    Buildable,
    /// A builder is realizing the derivation.
    Building,
    /// The build finished; terminal.
    Completed(DrvBuildResult),
    /// The build was stopped before it could finish.
    Interrupted(DrvBuildInterruptionKind),
    /// A transitive dependency failed to build; terminal.
    TransitiveFailure,
    /// A transitive dependency was interrupted; recoverable.
    Blocked,
}

/// Terminal states are sticky: no later event of the same build leaves them.
pub open spec fn spec_is_terminal(s: DrvBuildState) -> bool {
    s is Completed || s is TransitiveFailure
}

/// The stable on-disk integer of each state.
pub open spec fn state_code(s: DrvBuildState) -> int {
    match s {
        DrvBuildState::Queued => 0,
        DrvBuildState::Buildable => 1,
        DrvBuildState::Building => 7,
        DrvBuildState::Completed(DrvBuildResult::Success) => 42,
        DrvBuildState::Completed(DrvBuildResult::Failure) => -1,
        DrvBuildState::TransitiveFailure => -2,
        DrvBuildState::Interrupted(DrvBuildInterruptionKind::OutOfMemory) => -104,
        DrvBuildState::Interrupted(DrvBuildInterruptionKind::Timeout) => -120,
        DrvBuildState::Interrupted(DrvBuildInterruptionKind::Cancelled) => -86,
        DrvBuildState::Interrupted(DrvBuildInterruptionKind::ProcessDeath) => -66,
        DrvBuildState::Interrupted(DrvBuildInterruptionKind::SchedulerDeath) => -13,
        DrvBuildState::Blocked => 100,
    }
}

/// The state that an on-disk integer stands for, if any.
pub open spec fn state_of_code(code: int) -> Option<DrvBuildState> {
    if code == 0 {
        Some(DrvBuildState::Queued)
    } else if code == 1 {
        Some(DrvBuildState::Buildable)
    } else if code == 7 {
        Some(DrvBuildState::Building)
    } else if code == 42 {
        Some(DrvBuildState::Completed(DrvBuildResult::Success))
    } else if code == -1 {
        Some(DrvBuildState::Completed(DrvBuildResult::Failure))
    } else if code == -2 {
        Some(DrvBuildState::TransitiveFailure)
    } else if code == -104 {
        Some(DrvBuildState::Interrupted(DrvBuildInterruptionKind::OutOfMemory))
    } else if code == -120 {
        Some(DrvBuildState::Interrupted(DrvBuildInterruptionKind::Timeout))
    } else if code == -86 {
        Some(DrvBuildState::Interrupted(DrvBuildInterruptionKind::Cancelled))
    } else if code == -66 {
        Some(DrvBuildState::Interrupted(DrvBuildInterruptionKind::ProcessDeath))
    } else if code == -13 {
        Some(DrvBuildState::Interrupted(DrvBuildInterruptionKind::SchedulerDeath))
    } else if code == 100 {
        Some(DrvBuildState::Blocked)
    } else {
        None
    }
}

impl DrvBuildState {
    pub fn is_terminal(&self) -> (r: bool)
        ensures
            r == spec_is_terminal(*self),
    {
        matches!(self, DrvBuildState::Completed(_) | DrvBuildState::TransitiveFailure)
    }

    /// The integer that stands for this state in the database.
    pub fn to_code(&self) -> (r: i8)
        ensures
            r as int == state_code(*self),
    {
        match self {
            DrvBuildState::Queued => 0,
            DrvBuildState::Buildable => 1,
            DrvBuildState::Building => 7,
            DrvBuildState::Completed(DrvBuildResult::Success) => 42,
            DrvBuildState::Completed(DrvBuildResult::Failure) => -1,
            DrvBuildState::TransitiveFailure => -2,
            DrvBuildState::Interrupted(DrvBuildInterruptionKind::OutOfMemory) => -104,
            DrvBuildState::Interrupted(DrvBuildInterruptionKind::Timeout) => -120,
            DrvBuildState::Interrupted(DrvBuildInterruptionKind::Cancelled) => -86,
            DrvBuildState::Interrupted(DrvBuildInterruptionKind::ProcessDeath) => -66,
            DrvBuildState::Interrupted(DrvBuildInterruptionKind::SchedulerDeath) => -13,
            DrvBuildState::Blocked => 100,
        }
    }

    /// The state that an integer read from the database stands for, if any.
    pub fn from_code(code: i8) -> (r: Option<DrvBuildState>)
        ensures
            r == state_of_code(code as int),
    {
        let r = match code {
            0 => Some(DrvBuildState::Queued),
            1 => Some(DrvBuildState::Buildable),
            7 => Some(DrvBuildState::Building),
            42 => Some(DrvBuildState::Completed(DrvBuildResult::Success)),
            -1 => Some(DrvBuildState::Completed(DrvBuildResult::Failure)),
            -2 => Some(DrvBuildState::TransitiveFailure),
            -104 => Some(DrvBuildState::Interrupted(DrvBuildInterruptionKind::OutOfMemory)),
            -120 => Some(DrvBuildState::Interrupted(DrvBuildInterruptionKind::Timeout)),
            -86 => Some(DrvBuildState::Interrupted(DrvBuildInterruptionKind::Cancelled)),
            -66 => Some(DrvBuildState::Interrupted(DrvBuildInterruptionKind::ProcessDeath)),
            -13 => Some(DrvBuildState::Interrupted(DrvBuildInterruptionKind::SchedulerDeath)),
            100 => Some(DrvBuildState::Blocked),
            _ => None,
        };
        r
    }
}

/// The integer codec is a bijection between the states and their twelve integers: decoding
/// the integer of a state gives the state back, and an integer decodes to a state exactly
/// when it is that state's integer.
pub proof fn lemma_state_code_bijection(s: DrvBuildState, code: int)
    ensures
        state_of_code(state_code(s)) == Some(s),
        state_of_code(code) == Some(s) <==> state_code(s) == code,
{
}


/// Unique identifier of an attempt at building a derivation.
#[derive(Debug, PartialEq, Eq)]
pub struct DrvBuildId {
    /// The derivation to build.
    pub derivation: DrvId,
    /// Counts the attempts at building the derivation, from 1.
    pub build_attempt: u32,
}

impl View for DrvBuildId {
    type V = (Seq<char>, u32);

    open spec fn view(&self) -> (Seq<char>, u32) {
        (self.derivation@, self.build_attempt)
    }
}

impl DrvBuildId {
    pub fn duplicate(&self) -> (r: DrvBuildId)
        ensures
            r@ == self@,
    {
        DrvBuildId { derivation: self.derivation.duplicate(), build_attempt: self.build_attempt }
    }
}

/// A copy of `v`, string by string.
pub fn copy_strings(v: &Vec<String>) -> (r: Vec<String>)
    ensures
        r@.map_values(|x: String| x@) == v@.map_values(|x: String| x@),
{
    let mut r: Vec<String> = Vec::new();
    let mut i: usize = 0;
    while i < v.len()
        invariant
            i <= v.len(),
            r@.map_values(|x: String| x@) == v@.subrange(0, i as int).map_values(|x: String| x@),
        decreases v.len() - i,
    {
        r.push(v[i].clone());
        proof {
            assert(v@.subrange(0, i + 1).map_values(|x: String| x@) =~= v@.subrange(0, i as int).map_values(
                |x: String| x@,
            ).push(v@[i as int]@));
        }
        i = i + 1;
    }
    proof {
        assert(v@.subrange(0, v@.len() as int) =~= v@);
    }
    r
}

pub open spec fn pairs_view(v: Seq<(String, String)>) -> Seq<(Seq<char>, Seq<char>)> {
    v.map_values(|e: (String, String)| (e.0@, e.1@))
}

/// The variables that a list of pairs sets: a later pair overrides an earlier one.
pub open spec fn env_map(pairs: Seq<(Seq<char>, Seq<char>)>) -> Map<Seq<char>, Seq<char>>
    decreases pairs.len(),
{
    if pairs.len() == 0 {
        Map::empty()
    } else {
        env_map(pairs.drop_last()).insert(pairs.last().0, pairs.last().1)
    }
}

/// A copy of `v`, pair by pair.
pub fn copy_pairs(v: &Vec<(String, String)>) -> (r: Vec<(String, String)>)
    ensures
        pairs_view(r@) == pairs_view(v@),
{
    let mut r: Vec<(String, String)> = Vec::new();
    let mut i: usize = 0;
    while i < v.len()
        invariant
            i <= v.len(),
            pairs_view(r@) == pairs_view(v@.subrange(0, i as int)),
        decreases v.len() - i,
    {
        r.push((v[i].0.clone(), v[i].1.clone()));
        proof {
            assert(pairs_view(v@.subrange(0, i + 1)) =~= pairs_view(v@.subrange(0, i as int)).push(
                (v@[i as int].0@, v@[i as int].1@),
            ));
            assert(pairs_view(r@) =~= pairs_view(v@.subrange(0, i + 1)));
        }
        i = i + 1;
    }
    proof {
        assert(v@.subrange(0, v@.len() as int) =~= v@);
    }
    r
}

/// The command used to build a derivation.
#[derive(Debug, PartialEq, Eq)]
pub enum DrvBuildCommand {
    /// Build a single attribute.
    SingleAttr {
        /// Path to the executable, a store path that also pins its version.
        executable: String,
        /// Arguments.
        args: Vec<String>,
        /// Environment variables of the subprocess, each name once.
        env: Vec<(String, String)>,
        /// The `.nix` file that holds the attribute.
        file: String,
        /// The attribute to build.
        attr: String,
    },
}

/// A build command as mathematical values: executable, arguments, environment, file, attribute.
pub struct CommandView {
    pub executable: Seq<char>,
    pub args: Seq<Seq<char>>,
    /// Each variable's value; where a name repeats, its last pair counts.
    pub env: Map<Seq<char>, Seq<char>>,
    pub file: Seq<char>,
    pub attr: Seq<char>,
}

impl View for DrvBuildCommand {
    type V = CommandView;

    open spec fn view(&self) -> CommandView {
        match self {
            DrvBuildCommand::SingleAttr { executable, args, env, file, attr } => CommandView {
                executable: executable@,
                args: args@.map_values(|x: String| x@),
                env: env_map(pairs_view(env@)),
                file: file@,
                attr: attr@,
            },
        }
    }
}

impl DrvBuildCommand {
    pub fn duplicate(&self) -> (r: DrvBuildCommand)
        ensures
            r@ == self@,
    {
        match self {
            DrvBuildCommand::SingleAttr { executable, args, env, file, attr } => DrvBuildCommand::SingleAttr {
                executable: executable.clone(),
                args: copy_strings(args),
                env: copy_pairs(env),
                file: file.clone(),
                attr: attr.clone(),
            },
        }
    }
}

/// Metadata of one build attempt: enough to reproduce the build elsewhere.
#[derive(Debug)]
pub struct DrvBuildMetadata {
    /// The build attempt this metadata belongs to.
    pub build: DrvBuildId,
    /// The Git repository the build comes from.
    pub git_repo: GitRepo,
    /// The Git commit the build comes from.
    pub git_commit: GitCommit,
    /// The command that builds the derivation.
    pub build_command: DrvBuildCommand,
}

pub struct MetadataView {
    pub derivation: Seq<char>,
    pub build_attempt: u32,
    pub git_repo: Seq<char>,
    pub git_commit: Seq<u8>,
    pub build_command: CommandView,
}

impl View for DrvBuildMetadata {
    type V = MetadataView;

    open spec fn view(&self) -> MetadataView {
        MetadataView {
            derivation: self.build.derivation@,
            build_attempt: self.build.build_attempt,
            git_repo: self.git_repo@,
            git_commit: self.git_commit@,
            build_command: self.build_command@,
        }
    }
}

impl DrvBuildMetadata {
    /// Metadata to insert; the store assigns the attempt number.
    pub fn for_insert(
        derivation: DrvId,
        git_repo: GitRepo,
        git_commit: GitCommit,
        build_command: DrvBuildCommand,
    ) -> (r: ForInsert<DrvBuildMetadata>)
        ensures
            r.0.build.derivation@ == derivation@,
            r.0.git_repo@ == git_repo@,
            r.0.git_commit@ == git_commit@,
            r.0.build_command@ == build_command@,
    {
        ForInsert(
            DrvBuildMetadata {
                build: DrvBuildId { derivation, build_attempt: u32::MAX },
                git_repo,
                git_commit,
                build_command,
            },
        )
    }

    pub fn duplicate(&self) -> (r: DrvBuildMetadata)
        ensures
            r@ == self@,
    {
        DrvBuildMetadata {
            build: self.build.duplicate(),
            git_repo: self.git_repo.duplicate(),
            git_commit: self.git_commit.duplicate(),
            build_command: self.build_command.duplicate(),
        }
    }
}

/// Emitted whenever the state of a build changes.
#[derive(Debug)]
pub struct DrvBuildEvent {
    /// The build this event belongs to.
    pub build: DrvBuildId,
    /// The state the build entered.
    pub state: DrvBuildState,
    /// Seconds since the Unix epoch. One second is too coarse to order events; the store
    /// orders them by insertion.
    pub timestamp: i64,
}

pub struct EventView {
    pub derivation: Seq<char>,
    pub build_attempt: u32,
    pub state: DrvBuildState,
    pub timestamp: i64,
}

impl View for DrvBuildEvent {
    type V = EventView;

    open spec fn view(&self) -> EventView {
        EventView {
            derivation: self.build.derivation@,
            build_attempt: self.build.build_attempt,
            state: self.state,
            timestamp: self.timestamp,
        }
    }
}

impl DrvBuildEvent {
    /// An event to insert; the store assigns the timestamp.
    pub fn for_insert(build: DrvBuildId, state: DrvBuildState) -> (r: ForInsert<DrvBuildEvent>)
        ensures
            r.0.build@ == build@,
            r.0.state == state,
    {
        ForInsert(DrvBuildEvent { build, state, timestamp: i64::MAX })
    }

    pub fn duplicate(&self) -> (r: DrvBuildEvent)
        ensures
            r@ == self@,
    {
        DrvBuildEvent { build: self.build.duplicate(), state: self.state, timestamp: self.timestamp }
    }
}

/// A value of `T` meant for insertion only: the store fills in what the value leaves open
/// (an attempt number, a timestamp).
pub struct ForInsert<T>(pub T);

impl<T> ForInsert<T> {
    /// The value as it will be handed to the store.
    pub fn value(&self) -> (r: &T)
        ensures
            *r == self.0,
    {
        &self.0
    }
}

} // verus!
