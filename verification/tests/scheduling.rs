use fabriken::channels::ExecutorEvent;
use fabriken::env::EnvVars;
use fabriken::models::{BuildDefinition, Context, Step};
use fabriken::pipeline::{DefaultPipelineProducer, Pipeline};
use fabriken::scheduler::{DefaultScheduler, SchedulerDecision};

fn step(name: &str, deps: Vec<&str>) -> Step {
    Step {
        name: name.to_string(),
        image: Some("alpine".to_string()),
        run: vec![],
        depends_on: deps.into_iter().map(|s| s.to_string()).collect(),
        env: EnvVars::new(),
        containerize: None,
        push: None,
    }
}

fn diamond() -> Pipeline {
    let steps = vec![
        step("build", vec![]),
        step("compile", vec!["build"]),
        step("test", vec!["build"]),
        step("package", vec!["compile", "test"]),
    ];
    let definition = BuildDefinition {
        env: EnvVars::new(),
        pipeline: steps,
        context: Context { project_root: "/p".to_string() },
    };
    DefaultPipelineProducer::produce(definition).unwrap().1
}

fn dispatched(d: SchedulerDecision) -> Vec<usize> {
    match d {
        SchedulerDecision::Dispatch(mut v) => {
            v.sort();
            v
        }
        SchedulerDecision::Finish => panic!("expected a dispatch"),
    }
}

#[test]
fn steps_are_handed_out_in_dependency_order() {
    let pipeline = diamond();
    let mut scheduler = DefaultScheduler::new();
    assert_eq!(scheduler.start(&pipeline), vec![0]);
    assert_eq!(dispatched(scheduler.on_event(&pipeline, ExecutorEvent::StepFinished(0))), vec![1, 2]);
    assert_eq!(dispatched(scheduler.on_event(&pipeline, ExecutorEvent::StepFinished(1))), Vec::<usize>::new());
    assert_eq!(dispatched(scheduler.on_event(&pipeline, ExecutorEvent::StepFinished(2))), vec![3]);
    assert!(matches!(scheduler.on_event(&pipeline, ExecutorEvent::StepFinished(3)), SchedulerDecision::Finish));
}

#[test]
fn a_failure_changes_nothing() {
    let pipeline = diamond();
    let mut scheduler = DefaultScheduler::new();
    assert_eq!(scheduler.start(&pipeline), vec![0]);
    assert_eq!(dispatched(scheduler.on_event(&pipeline, ExecutorEvent::StepFailed(0))), Vec::<usize>::new());
    assert_eq!(dispatched(scheduler.on_event(&pipeline, ExecutorEvent::StepFinished(0))), vec![1, 2]);
}

#[test]
fn independent_steps_start_together() {
    let steps = vec![step("a", vec![]), step("b", vec![]), step("c", vec!["a"])];
    let definition = BuildDefinition {
        env: EnvVars::new(),
        pipeline: steps,
        context: Context { project_root: "/p".to_string() },
    };
    let pipeline = DefaultPipelineProducer::produce(definition).unwrap().1;
    let mut scheduler = DefaultScheduler::new();
    assert_eq!(scheduler.start(&pipeline), vec![0, 1]);
    assert_eq!(dispatched(scheduler.on_event(&pipeline, ExecutorEvent::StepFinished(1))), Vec::<usize>::new());
    assert_eq!(dispatched(scheduler.on_event(&pipeline, ExecutorEvent::StepFinished(0))), vec![2]);
    assert!(matches!(scheduler.on_event(&pipeline, ExecutorEvent::StepFinished(2)), SchedulerDecision::Finish));
}

#[test]
fn a_single_step_finishes_the_build() {
    let definition = BuildDefinition {
        env: EnvVars::new(),
        pipeline: vec![step("only", vec![])],
        context: Context { project_root: "/p".to_string() },
    };
    let pipeline = DefaultPipelineProducer::produce(definition).unwrap().1;
    let mut scheduler = DefaultScheduler::new();
    assert_eq!(scheduler.start(&pipeline), vec![0]);
    assert!(matches!(scheduler.on_event(&pipeline, ExecutorEvent::StepFinished(0)), SchedulerDecision::Finish));
}

#[test]
fn released_steps_come_in_adjacency_order() {
    let pipeline = diamond();
    assert_eq!(pipeline.dependents(0), vec![1, 2]);
    let mut scheduler = DefaultScheduler::new();
    assert_eq!(scheduler.start(&pipeline), vec![0]);
    match scheduler.on_event(&pipeline, ExecutorEvent::StepFinished(0)) {
        SchedulerDecision::Dispatch(v) => assert_eq!(v, vec![1, 2]),
        SchedulerDecision::Finish => panic!("expected a dispatch"),
    }
}
