use std::sync::Arc;

use fabriken::channels::{
    BuildUpdate, ExecutorCommand, ExecutorEvent, GlobalEvent, StreamType, UpdateType, command_for, log_event,
};
use fabriken::env::{EnvVars, into_args, merge_envs};
use fabriken::executor::{Buildah, ContainerRunner, ContainerizeStep, Docker, Podman, RunStep};
use fabriken::executors::{ContainerExecutor, ExecError, ExitReport, StepExecutor, outcome_event};
use fabriken::models::{BuildContext, Builder, Step, to_build_enum};
use fabriken::pipeline::ExecutionStep;

fn env(pairs: &[(&str, &str)]) -> EnvVars {
    let mut e = EnvVars::new();
    for (k, v) in pairs {
        e.insert(k.to_string(), v.to_string());
    }
    e
}

fn strings(v: &[&str]) -> Vec<String> {
    v.iter().map(|s| s.to_string()).collect()
}

fn run_step() -> RunStep {
    RunStep {
        name: "compile".to_string(),
        run: strings(&["cargo build", "cargo test"]),
        image: Some("rust:1".to_string()),
        id: 4,
        env: env(&[("MODE", "debug")]),
    }
}

fn containerize_step(engine: ContainerRunner) -> ContainerizeStep {
    ContainerizeStep {
        name: "image".to_string(),
        id: 7,
        env: env(&[("TAG", "v1")]),
        file: "Containerfile".to_string(),
        context: "./app".to_string(),
        image: "app:v1".to_string(),
        executor_engine: engine,
    }
}

#[test]
fn env_insert_replaces_in_place() {
    let mut e = env(&[("A", "1"), ("B", "2")]);
    assert_eq!(e.insert("A".to_string(), "3".to_string()), Some("1".to_string()));
    assert_eq!(e.insert("C".to_string(), "4".to_string()), None);
    assert_eq!(e.len(), 3);
    assert_eq!(e.get(&"A".to_string()), Some("3".to_string()));
    assert_eq!(e.get(&"Z".to_string()), None);
    assert_eq!(
        e.to_pairs(),
        vec![
            ("A".to_string(), "3".to_string()),
            ("B".to_string(), "2".to_string()),
            ("C".to_string(), "4".to_string())
        ]
    );
}

#[test]
fn local_env_overrides_global() {
    let global = env(&[("X", "1"), ("Y", "2")]);
    let local = env(&[("Y", "3"), ("Z", "4")]);
    let merged = merge_envs(&local, &global);
    assert_eq!(into_args(merged), strings(&["-e", "X=1", "-e", "Y=3", "-e", "Z=4"]));
}

#[test]
fn empty_env_gives_no_args() {
    assert!(into_args(EnvVars::new()).is_empty());
    assert!(EnvVars::new().is_empty());
}

#[test]
fn podman_run_command() {
    let ctx = BuildContext::new("/projects/example".to_string(), env(&[("MODE", "release"), ("CI", "1")]));
    let cmd = Podman.run_command(&ctx, &run_step());
    assert_eq!(cmd.program, "podman");
    assert_eq!(
        cmd.args,
        strings(&[
            "run", "-e", "MODE=debug", "-e", "CI=1", "--rm", "-v", "/projects/example:/workspace", "-w",
            "/workspace", "rust:1", "sh", "-c", "cargo build && cargo test"
        ])
    );
}

#[test]
fn docker_run_command_with_no_commands() {
    let ctx = BuildContext::new("/p".to_string(), EnvVars::new());
    let mut step = run_step();
    step.run = vec![];
    step.env = EnvVars::new();
    let cmd = Docker.run_command(&ctx, &step);
    assert_eq!(cmd.program, "docker");
    assert_eq!(cmd.args, strings(&["run", "--rm", "-v", "/p:/workspace", "-w", "/workspace", "rust:1", "sh", "-c", ""]));
}

#[test]
fn pull_command_trims_the_image() {
    let cmd = Podman.pull_command("  alpine:3 \n");
    assert_eq!(cmd.program, "podman");
    assert_eq!(cmd.args, strings(&["pull", "alpine:3"]));
    let cmd = Docker.pull_command("busybox");
    assert_eq!(cmd.program, "docker");
    assert_eq!(cmd.args, strings(&["pull", "busybox"]));
}

#[test]
fn build_commands_of_each_engine() {
    let ctx = BuildContext::new("/p".to_string(), env(&[("TAG", "v0"), ("CI", "1")]));
    let expected = strings(&["build", "-e", "TAG=v1", "-e", "CI=1", "-f", "Containerfile", "-t", "app:v1", "./app"]);
    for (engine, program) in [
        (ContainerRunner::Podman(Podman), "podman"),
        (ContainerRunner::Docker(Docker), "docker"),
        (ContainerRunner::Buildah(Buildah), "buildah"),
    ] {
        let step = containerize_step(engine);
        let cmd = engine.build_command(&ctx, &step);
        assert_eq!(cmd.program, program);
        assert_eq!(cmd.args, expected);
    }
    let cmd = Buildah.build_command(&ctx, &containerize_step(ContainerRunner::Buildah(Buildah)));
    assert_eq!(cmd.program, "buildah");
}

#[test]
fn builder_names_round_trip() {
    for b in [Builder::Podman, Builder::Docker, Builder::Buildah] {
        assert_eq!(to_build_enum(b.to_string()), b);
    }
    assert_eq!(Builder::Podman.to_string(), "PODMAN");
    assert_eq!(Builder::Docker.to_string(), "DOCKER");
    assert_eq!(Builder::Buildah.to_string(), "BUILDAH");
    assert_eq!(ContainerRunner::from(Builder::Docker), ContainerRunner::Docker(Docker));
}

#[test]
fn run_step_from_definition() {
    let def = Step {
        name: "lint".to_string(),
        image: None,
        run: strings(&["make lint"]),
        depends_on: vec![],
        env: env(&[("K", "V")]),
        containerize: None,
        push: None,
    };
    let step = RunStep::from((9, def));
    assert_eq!(step.id, 9);
    assert_eq!(step.name, "lint");
    assert_eq!(step.image, None);
    assert_eq!(step.run, strings(&["make lint"]));
    assert_eq!(step.env.get(&"K".to_string()), Some("V".to_string()));
}

#[test]
fn step_executor_runs_pull_then_run() {
    let ctx = BuildContext::new("/p".to_string(), EnvVars::new());
    let step = run_step();
    let exec = StepExecutor::new();
    let (events, pull) = exec.begin(&step);
    assert!(matches!(events.as_slice(), [GlobalEvent::PullingImage]));
    assert_eq!(pull.args, strings(&["pull", "rust:1"]));
    let (events, run) = exec.after_pull(&ctx, &step, ExitReport { success: true, code: Some(0) });
    assert!(matches!(events.as_slice(), [GlobalEvent::ImageFetched, GlobalEvent::StepStarted]));
    let run = run.unwrap();
    assert_eq!(run.program, "podman");
    assert_eq!(run.args[0], "run");
    let (events, done) = exec.after_run(&step, ExitReport { success: true, code: Some(0) });
    assert!(matches!(events.as_slice(), [GlobalEvent::StepEnded]));
    assert_eq!(done, Ok(4));
}

#[test]
fn step_executor_failures() {
    let ctx = BuildContext::new("/p".to_string(), EnvVars::new());
    let step = run_step();
    let exec = StepExecutor::new();
    let (events, res) = exec.after_pull(&ctx, &step, ExitReport { success: false, code: Some(125) });
    assert!(events.is_empty());
    assert_eq!(res.err(), Some(ExecError::PullFailed(125)));
    let (events, res) = exec.after_run(&step, ExitReport { success: false, code: Some(-1) });
    assert!(events.is_empty());
    assert_eq!(res, Err(ExecError::RunFailed(-1)));
    assert_eq!(ExecError::PullFailed(125).to_string(), "Pulling image went wrong! StatusCode: 125");
    assert_eq!(ExecError::RunFailed(-1).to_string(), "Pulling image went wrong! StatusCode: -1");
    assert_eq!(ExecError::ContainerizeFailed(2).to_string(), "Containerizing went wrong! StatusCode: 2");
    assert_eq!(
        ExecError::SpawnFailed("No such file or directory (os error 2)".to_string()).to_string(),
        "No such file or directory (os error 2)"
    );
    assert_eq!(ExecError::PullFailed(0).to_string(), "Pulling image went wrong! StatusCode: 0");
    assert_eq!(ExecError::PullFailed(i32::MAX).to_string(), "Pulling image went wrong! StatusCode: 2147483647");
    assert_eq!(ExecError::RunFailed(i32::MIN).to_string(), "Pulling image went wrong! StatusCode: -2147483648");
    assert!(ExecError::SpawnFailed("a".to_string()) == ExecError::SpawnFailed("a".to_string()));
    assert!(ExecError::SpawnFailed("a".to_string()) != ExecError::SpawnFailed("b".to_string()));
    assert!(ExecError::RunFailed(1) != ExecError::PullFailed(1));
}

#[test]
fn container_executor_flow() {
    let ctx = BuildContext::new("/p".to_string(), EnvVars::new());
    let step = containerize_step(ContainerRunner::Docker(Docker));
    let (events, cmd) = ContainerExecutor.begin(&ctx, &step);
    assert!(matches!(events.as_slice(), [GlobalEvent::ContainerizingStarted]));
    assert_eq!(cmd.program, "docker");
    let (events, done) = ContainerExecutor.after_build(&step, ExitReport { success: true, code: Some(0) });
    assert!(matches!(events.as_slice(), [GlobalEvent::ContainerizingDone]));
    assert_eq!(done, Ok(7));
    let (events, done) = ContainerExecutor.after_build(&step, ExitReport { success: false, code: Some(1) });
    assert!(events.is_empty());
    assert_eq!(done, Err(ExecError::ContainerizeFailed(1)));
}

#[test]
fn outcomes_reported_to_the_scheduler() {
    assert_eq!(outcome_event(Ok(3)), ExecutorEvent::StepFinished(3));
    assert_eq!(outcome_event(Err(ExecError::RunFailed(1))), ExecutorEvent::StepFailed(0));
}

#[test]
fn commands_for_steps() {
    match command_for(ExecutionStep::RunStep(run_step())) {
        ExecutorCommand::RunStep(s) => assert_eq!(Arc::strong_count(&s), 1),
        _ => panic!("a run step is run"),
    }
    match command_for(ExecutionStep::ContainerizeStep(containerize_step(ContainerRunner::Podman(Podman)))) {
        ExecutorCommand::BuildContainer(s) => assert_eq!(s.id, 7),
        _ => panic!("a containerize step builds"),
    }
}

#[test]
fn log_lines_lose_trailing_whitespace() {
    let e = log_event("compile", "  warning: unused \r\n", StreamType::Stderr);
    assert_eq!(e.step, "compile");
    assert_eq!(e.line, "  warning: unused");
    assert_eq!(e.stream, StreamType::Stderr);
}

#[test]
fn pull_command_trims_unicode_whitespace() {
    let cmd = Podman.pull_command("\u{3000}\t alpine:3\u{a0}\r\n");
    assert_eq!(cmd.args, strings(&["pull", "alpine:3"]));
    let cmd = Docker.pull_command(" \u{2003} ");
    assert_eq!(cmd.args, strings(&["pull", ""]));
}

#[test]
fn build_updates_report_each_event() {
    let update = BuildUpdate::from(GlobalEvent::Log(log_event("lint", "ok  \n", StreamType::Stderr)));
    match update.update_type {
        Some(UpdateType::Log(entry)) => {
            assert_eq!(entry.step, "lint");
            assert_eq!(entry.line, "ok");
            assert_eq!(entry.stream_type, StreamType::Stderr);
        }
        _ => panic!("a log event gives a log update"),
    }
    assert!(matches!(BuildUpdate::from(GlobalEvent::BuildStart).update_type, Some(UpdateType::Start)));
    assert!(matches!(BuildUpdate::from(GlobalEvent::BuildEnd).update_type, Some(UpdateType::End)));
    assert!(matches!(BuildUpdate::from(GlobalEvent::PullingImage).update_type, Some(UpdateType::PullingImage)));
    assert!(matches!(BuildUpdate::from(GlobalEvent::ImageFetched).update_type, Some(UpdateType::ImageFetched)));
    assert!(matches!(BuildUpdate::from(GlobalEvent::StepEnded).update_type, Some(UpdateType::StepEnded)));
    assert!(matches!(BuildUpdate::from(GlobalEvent::StepStarted).update_type, Some(UpdateType::StepEnded)));
    assert!(matches!(
        BuildUpdate::from(GlobalEvent::ContainerizingStarted).update_type,
        Some(UpdateType::ContainerizingStarted)
    ));
    assert!(matches!(
        BuildUpdate::from(GlobalEvent::ContainerizingDone).update_type,
        Some(UpdateType::ContainerizingDone)
    ));
}
