//! What is asked of the level compiler, and what is done once it has run.
//!
//! The compiler is a program of its own. Starting it, waiting for it and
//! moving files are left to the caller: this module names the arguments and
//! the files, and decides after each step what the next one is.

use vstd::prelude::*;
use vstd::string::StringExecFns;

verus! {

/// Name of the level, without a file extension.
pub const MAP_NAME: &'static str = "mp_ozersk_maze";

/// Number of files that a compiler run leaves behind.
pub const ARTIFACTS: usize = 2;

/// Where the level description lies, below the mod directory.
pub open spec fn map_path_spec() -> Seq<char> {
    "Titanfall2/maps/"@ + MAP_NAME@ + ".map"@
}

/// Where the level description lies, below the mod directory.
pub fn map_path() -> (path: String)
    ensures
        path@ == map_path_spec(),
{
    let mut path = String::from_str("Titanfall2/maps/");
    path.append(MAP_NAME);
    path.append(".map");
    path
}

/// The arguments of a compiler run, in order.
pub open spec fn compiler_arguments_spec(basepath: Seq<char>, map: Seq<char>) -> Seq<Seq<char>> {
    seq![
        "-v"@,
        "-connect"@,
        "127.0.0.1:39000"@,
        "-game"@,
        "titanfall2"@,
        "-fs_basepath"@,
        basepath,
        "-fs_game"@,
        "Titanfall2"@,
        "-meta"@,
        map,
    ]
}

/// The arguments of a compiler run: for the mod directory `basepath` and the
/// level description at `map`.
pub fn compiler_arguments(basepath: &str, map: &str) -> (arguments: Vec<String>)
    ensures
        arguments.deep_view() == compiler_arguments_spec(basepath@, map@),
{
    let mut arguments: Vec<String> = Vec::new();
    arguments.push(String::from_str("-v"));
    arguments.push(String::from_str("-connect"));
    arguments.push(String::from_str("127.0.0.1:39000"));
    arguments.push(String::from_str("-game"));
    arguments.push(String::from_str("titanfall2"));
    arguments.push(String::from_str("-fs_basepath"));
    arguments.push(String::from_str(basepath));
    arguments.push(String::from_str("-fs_game"));
    arguments.push(String::from_str("Titanfall2"));
    arguments.push(String::from_str("-meta"));
    arguments.push(String::from_str(map));
    assert(arguments.deep_view() =~= compiler_arguments_spec(basepath@, map@));
    arguments
}

/// The file name of an artifact: the compiled level, then its entity file.
pub open spec fn artifact_name_spec(index: int) -> Seq<char> {
    if index == 0 {
        MAP_NAME@ + ".bsp"@
    } else {
        MAP_NAME@ + "_script.ent"@
    }
}

/// The file name of an artifact. It is also where the artifact goes, below
/// the mod directory.
pub fn artifact_name(index: usize) -> (name: String)
    requires
        index < ARTIFACTS,
    ensures
        name@ == artifact_name_spec(index as int),
{
    let mut name = String::from_str(MAP_NAME);
    if index == 0 {
        name.append(".bsp");
    } else {
        name.append("_script.ent");
    }
    name
}

/// Where the compiler leaves an artifact, below the mod directory.
pub fn artifact_source(index: usize) -> (path: String)
    requires
        index < ARTIFACTS,
    ensures
        path@ == "Titanfall2/maps/"@ + artifact_name_spec(index as int),
{
    let mut path = String::from_str("Titanfall2/maps/");
    let name = artifact_name(index);
    path.append(name.as_str());
    path
}

/// How far a compiler run has come.
#[derive(Debug, Clone, Copy, PartialEq, Eq, Structural)]
pub enum CompileState {
    /// Nothing was asked for yet.
    Idle,
    /// The compiler is being started.
    Starting,
    /// The compiler runs.
    Running,
    /// The old copy of the artifact with this index is being removed.
    Removing(usize),
    /// The artifact with this index is being copied.
    Copying(usize),
    /// The run is over.
    Finished,
}

/// What came of the step that was asked for last.
#[derive(Debug, Clone, Copy, PartialEq, Eq, Structural)]
pub enum CompileEvent {
    /// A level description was written and waits to be compiled.
    Requested,
    /// The step was done. For the wait on the compiler this means that the
    /// compiler has exited, whatever its exit status.
    Done,
    /// The step could not be done.
    Failed,
}

/// What to do next.
#[derive(Debug, Clone, Copy, PartialEq, Eq, Structural)]
pub enum CompileAction {
    /// Start the compiler, and do not wait for it here.
    Spawn,
    /// Wait for the compiler to exit, away from the caller's thread.
    Wait,
    /// Remove the old copy of the artifact with this index.
    Remove(usize),
    /// Copy the artifact with this index to its place.
    Copy(usize),
    /// Tell the script side that the level is compiled.
    Notify,
    /// Nothing.
    Nothing,
}

/// The state after an event, and the step to take. A compiler that cannot be
/// started or waited for ends the run. Once it has exited, every artifact has
/// its old copy removed and is copied, and the script side is told: a file
/// that cannot be removed or copied holds nothing up.
pub open spec fn compile_step_spec(state: CompileState, event: CompileEvent) -> (
    CompileState,
    CompileAction,
) {
    match (state, event) {
        (CompileState::Idle, CompileEvent::Requested) => (
            CompileState::Starting,
            CompileAction::Spawn,
        ),
        (CompileState::Starting, CompileEvent::Done) => (CompileState::Running, CompileAction::Wait),
        (CompileState::Starting, CompileEvent::Failed) => (
            CompileState::Finished,
            CompileAction::Nothing,
        ),
        (CompileState::Running, CompileEvent::Done) => (
            CompileState::Removing(0),
            CompileAction::Remove(0),
        ),
        (CompileState::Running, CompileEvent::Failed) => (
            CompileState::Finished,
            CompileAction::Nothing,
        ),
        (CompileState::Removing(index), CompileEvent::Done)
        | (CompileState::Removing(index), CompileEvent::Failed) => if index < ARTIFACTS {
            (CompileState::Copying(index), CompileAction::Copy(index))
        } else {
            (CompileState::Finished, CompileAction::Nothing)
        },
        (CompileState::Copying(index), CompileEvent::Done)
        | (CompileState::Copying(index), CompileEvent::Failed) => if index + 1 < ARTIFACTS {
            (CompileState::Removing((index + 1) as usize), CompileAction::Remove((index + 1) as usize))
        } else {
            (CompileState::Finished, CompileAction::Notify)
        },
        _ => (state, CompileAction::Nothing),
    }
}

/// Decides the next step of a compiler run.
pub fn compile_step(state: CompileState, event: CompileEvent) -> (next: (
    CompileState,
    CompileAction,
))
    ensures
        next == compile_step_spec(state, event),
{
    match state {
        CompileState::Idle => match event {
            CompileEvent::Requested => (CompileState::Starting, CompileAction::Spawn),
            _ => (state, CompileAction::Nothing),
        },
        CompileState::Starting => match event {
            CompileEvent::Done => (CompileState::Running, CompileAction::Wait),
            CompileEvent::Failed => (CompileState::Finished, CompileAction::Nothing),
            CompileEvent::Requested => (state, CompileAction::Nothing),
        },
        CompileState::Running => match event {
            CompileEvent::Done => (CompileState::Removing(0), CompileAction::Remove(0)),
            CompileEvent::Failed => (CompileState::Finished, CompileAction::Nothing),
            CompileEvent::Requested => (state, CompileAction::Nothing),
        },
        CompileState::Removing(index) => match event {
            CompileEvent::Requested => (state, CompileAction::Nothing),
            _ => if index < ARTIFACTS {
                (CompileState::Copying(index), CompileAction::Copy(index))
            } else {
                (CompileState::Finished, CompileAction::Nothing)
            },
        },
        CompileState::Copying(index) => match event {
            CompileEvent::Requested => (state, CompileAction::Nothing),
            _ => if index < ARTIFACTS - 1 {
                (CompileState::Removing(index + 1), CompileAction::Remove(index + 1))
            } else {
                (CompileState::Finished, CompileAction::Notify)
            },
        },
        CompileState::Finished => (state, CompileAction::Nothing),
    }
}

/// The steps that a run of events leads to, in order, from a state on.
pub open spec fn compile_actions(state: CompileState, events: Seq<CompileEvent>) -> Seq<
    CompileAction,
>
    decreases events.len(),
{
    if events.len() == 0 {
        Seq::empty()
    } else {
        let (next, action) = compile_step_spec(state, events[0]);
        seq![action] + compile_actions(next, events.drop_first())
    }
}

/// The state that a run of events leads to, from a state on.
pub open spec fn compile_state_after(state: CompileState, events: Seq<CompileEvent>) -> CompileState
    decreases events.len(),
{
    if events.len() == 0 {
        state
    } else {
        compile_state_after(compile_step_spec(state, events[0]).0, events.drop_first())
    }
}

/// Once the compiler has exited, both artifacts are moved and the script side
/// is told, whether or not the four file operations succeed.
pub proof fn lemma_exit_leads_to_notification(
    first: CompileEvent,
    second: CompileEvent,
    third: CompileEvent,
    fourth: CompileEvent,
)
    requires
        first != CompileEvent::Requested,
        second != CompileEvent::Requested,
        third != CompileEvent::Requested,
        fourth != CompileEvent::Requested,
    ensures
        compile_actions(
            CompileState::Running,
            seq![CompileEvent::Done, first, second, third, fourth],
        ) == seq![
            CompileAction::Remove(0),
            CompileAction::Copy(0),
            CompileAction::Remove(1),
            CompileAction::Copy(1),
            CompileAction::Notify,
        ],
        compile_state_after(
            CompileState::Running,
            seq![CompileEvent::Done, first, second, third, fourth],
        ) == CompileState::Finished,
{
    let e0 = seq![CompileEvent::Done, first, second, third, fourth];
    let e1 = seq![first, second, third, fourth];
    let e2 = seq![second, third, fourth];
    let e3 = seq![third, fourth];
    let e4 = seq![fourth];
    assert(e0.drop_first() =~= e1);
    assert(e1.drop_first() =~= e2);
    assert(e2.drop_first() =~= e3);
    assert(e3.drop_first() =~= e4);
    assert(e4.drop_first() =~= Seq::<CompileEvent>::empty());
    reveal_with_fuel(compile_actions, 6);
    reveal_with_fuel(compile_state_after, 6);
    assert(compile_actions(CompileState::Copying(1), e4) =~= seq![CompileAction::Notify]);
    assert(compile_actions(CompileState::Removing(1), e3) =~= seq![
        CompileAction::Copy(1),
        CompileAction::Notify,
    ]);
    assert(compile_actions(CompileState::Copying(0), e2) =~= seq![
        CompileAction::Remove(1),
        CompileAction::Copy(1),
        CompileAction::Notify,
    ]);
    assert(compile_actions(CompileState::Removing(0), e1) =~= seq![
        CompileAction::Copy(0),
        CompileAction::Remove(1),
        CompileAction::Copy(1),
        CompileAction::Notify,
    ]);
    assert(compile_actions(CompileState::Running, e0) =~= seq![
        CompileAction::Remove(0),
        CompileAction::Copy(0),
        CompileAction::Remove(1),
        CompileAction::Copy(1),
        CompileAction::Notify,
    ]);
}

/// A compiler that cannot be started, or cannot be waited for, ends the run:
/// nothing is copied and nobody is told, whatever comes in afterwards.
pub proof fn lemma_failure_ends_the_run(state: CompileState, later: Seq<CompileEvent>)
    requires
        state == CompileState::Starting || state == CompileState::Running,
    ensures
        compile_state_after(state, seq![CompileEvent::Failed] + later) == CompileState::Finished,
        compile_actions(state, seq![CompileEvent::Failed] + later) == Seq::new(
            later.len() + 1,
            |i: int| CompileAction::Nothing,
        ),
{
    let events = seq![CompileEvent::Failed] + later;
    assert(events.drop_first() =~= later);
    lemma_finished_stays(later);
    assert(compile_actions(state, events) =~= Seq::new(
        later.len() + 1,
        |i: int| CompileAction::Nothing,
    ));
}

/// A run that is over stays over, and asks for nothing more.
pub proof fn lemma_finished_stays(events: Seq<CompileEvent>)
    ensures
        compile_state_after(CompileState::Finished, events) == CompileState::Finished,
        compile_actions(CompileState::Finished, events) == Seq::new(
            events.len(),
            |i: int| CompileAction::Nothing,
        ),
    decreases events.len(),
{
    if events.len() > 0 {
        lemma_finished_stays(events.drop_first());
    }
    assert(compile_actions(CompileState::Finished, events) =~= Seq::new(
        events.len(),
        |i: int| CompileAction::Nothing,
    ));
}

} // verus!
