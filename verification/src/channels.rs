//! The messages that flow between the scheduler, the executor and the outside world.

use vstd::prelude::*;
use std::sync::Arc;
use crate::executor::{ContainerizeStep, RunStep};
use crate::pipeline::{ExecutionStep, StepId};
use crate::text::{trim_end, trim_end_seq};

verus! {

/// What happens during a build, as reported to whoever watches it.
pub enum GlobalEvent {
    Log(LogEvent),
    BuildStart,
    BuildEnd,
    StepStarted,
    StepEnded,
    PullingImage,
    ImageFetched,
    ContainerizingStarted,
    ContainerizingDone,
}

/// A line that a step wrote to one of its output streams.
pub struct LogEvent {
    pub step: String,
    pub line: String,
    pub stream: StreamType,
}

/// The output streams of a process.
#[derive(Debug, Clone, Copy, PartialEq, Eq, Structural)]
pub enum StreamType {
    Stdout,
    Stderr,
}

/// A line of a step's output, as a build update carries it.
#[derive(Debug)]
pub struct LogEntry {
    pub step: String,
    pub line: String,
    pub stream_type: StreamType,
}

/// What one build update reports.
#[derive(Debug)]
pub enum UpdateType {
    Log(LogEntry),
    Start,
    End,
    PullingImage,
    ImageFetched,
    StepEnded,
    ContainerizingStarted,
    ContainerizingDone,
}

/// An update on a running build, as it is sent to whoever started the build.
#[derive(Debug)]
pub struct BuildUpdate {
    pub update_type: Option<UpdateType>,
}

/// The update that reports `event`. Both the start and the end of a step are reported
/// as `StepEnded`.
pub open spec fn update_of(event: GlobalEvent) -> UpdateType {
    match event {
        GlobalEvent::Log(log) => UpdateType::Log(LogEntry { step: log.step, line: log.line, stream_type: log.stream }),
        GlobalEvent::BuildStart => UpdateType::Start,
        GlobalEvent::BuildEnd => UpdateType::End,
        GlobalEvent::PullingImage => UpdateType::PullingImage,
        GlobalEvent::ImageFetched => UpdateType::ImageFetched,
        GlobalEvent::StepEnded => UpdateType::StepEnded,
        GlobalEvent::StepStarted => UpdateType::StepEnded,
        GlobalEvent::ContainerizingStarted => UpdateType::ContainerizingStarted,
        GlobalEvent::ContainerizingDone => UpdateType::ContainerizingDone,
    }
}

/// A log update carries the log event's step, line and stream as they are; every other
/// event gives an update that is not a log line, and each kind of build event gives its
/// own kind of update (only a step's start is reported as its end).
pub proof fn lemma_update_of(e: LogEvent, event: GlobalEvent)
    ensures
        update_of(GlobalEvent::Log(e)) matches UpdateType::Log(entry) && entry.step == e.step && entry.line
            == e.line && entry.stream_type == e.stream,
        !(event is Log) ==> !(update_of(event) is Log),
        update_of(GlobalEvent::BuildStart) is Start,
        update_of(GlobalEvent::BuildEnd) is End,
        update_of(GlobalEvent::PullingImage) is PullingImage,
        update_of(GlobalEvent::ImageFetched) is ImageFetched,
        update_of(GlobalEvent::StepEnded) is StepEnded,
        update_of(GlobalEvent::StepStarted) is StepEnded,
        update_of(GlobalEvent::ContainerizingStarted) is ContainerizingStarted,
        update_of(GlobalEvent::ContainerizingDone) is ContainerizingDone,
{
}

impl From<GlobalEvent> for BuildUpdate {
    fn from(value: GlobalEvent) -> (res: Self) {
        let update = match value {
            GlobalEvent::Log(log) => UpdateType::Log(
                LogEntry { step: log.step, line: log.line, stream_type: log.stream },
            ),
            GlobalEvent::BuildStart => UpdateType::Start,
            GlobalEvent::BuildEnd => UpdateType::End,
            GlobalEvent::PullingImage => UpdateType::PullingImage,
            GlobalEvent::ImageFetched => UpdateType::ImageFetched,
            GlobalEvent::StepEnded => UpdateType::StepEnded,
            GlobalEvent::StepStarted => UpdateType::StepEnded,
            GlobalEvent::ContainerizingStarted => UpdateType::ContainerizingStarted,
            GlobalEvent::ContainerizingDone => UpdateType::ContainerizingDone,
        };
        BuildUpdate { update_type: Some(update) }
    }
}

impl vstd::std_specs::convert::FromSpecImpl<GlobalEvent> for BuildUpdate {
    open spec fn obeys_from_spec() -> bool {
        true
    }

    open spec fn from_spec(v: GlobalEvent) -> Self {
        BuildUpdate { update_type: Some(update_of(v)) }
    }
}

/// What the scheduler asks of the executor.
pub enum ExecutorCommand {
    RunStep(Arc<RunStep>),
    BuildContainer(Arc<ContainerizeStep>),
    Shutdown,
}

/// What the executor tells the scheduler of a step.
#[derive(Debug, Clone, Copy, PartialEq, Eq, Structural)]
pub enum ExecutorEvent {
    StepFinished(StepId),
    StepFailed(StepId),
}

/// The log event for a line that the step `name` wrote to `stream`: the line loses its
/// trailing whitespace.
pub fn log_event(name: &str, line: &str, stream: StreamType) -> (res: LogEvent)
    ensures
        res.step@ == name@,
        res.line@ == trim_end_seq(line@),
        res.stream == stream,
{
    LogEvent { step: String::from_str(name), line: trim_end(line), stream }
}

/// The command that hands a step to the executor: a run step is run, a containerize step
/// builds its container.
pub fn command_for(step: ExecutionStep) -> (res: ExecutorCommand)
    ensures
        match step {
            ExecutionStep::RunStep(s) => res matches ExecutorCommand::RunStep(r) && *r == s,
            ExecutionStep::ContainerizeStep(s) => res matches ExecutorCommand::BuildContainer(c) && *c == s,
        },
{
    match step {
        ExecutionStep::RunStep(s) => ExecutorCommand::RunStep(Arc::new(s)),
        ExecutionStep::ContainerizeStep(s) => ExecutorCommand::BuildContainer(Arc::new(s)),
    }
}

} // verus!
