use fabriken::env::EnvVars;
use fabriken::models::{BuildDefinition, Builder, Containerize, Context, Step};
use fabriken::pipeline::{DefaultPipelineProducer, ExecutionStep, PipelineError, dependencies_known};

fn mock_step(image: &str, deps: Vec<&str>) -> Step {
    Step {
        name: image.to_string(),
        image: Some(image.to_string()),
        run: vec!["echo hello".to_string()],
        depends_on: deps.into_iter().map(|s| s.to_string()).collect(),
        env: EnvVars::new(),
        containerize: None,
        push: None,
    }
}

fn definition(pipeline: Vec<Step>) -> BuildDefinition {
    BuildDefinition {
        pipeline,
        env: EnvVars::new(),
        context: Context { project_root: "/tmp".to_string() },
    }
}

#[test]
fn test_sequential_fallback_ordering() {
    let pipeline_map = vec![mock_step("A", vec![]), mock_step("B", vec![]), mock_step("C", vec![])];
    let (_, mut pipeline) = DefaultPipelineProducer::produce(definition(pipeline_map)).unwrap();

    assert!(!pipeline.is_cyclic());

    let a = pipeline.id_of("A").unwrap();
    let b = pipeline.id_of("B").unwrap();
    let c = pipeline.id_of("C").unwrap();

    assert!(pipeline.graph.contains_edge(a, b));
    assert!(pipeline.graph.contains_edge(b, c));
}

#[test]
fn test_explicit_dependencies_override_fallback() {
    let pipeline_map = vec![mock_step("A", vec![]), mock_step("B", vec![]), mock_step("C", vec!["A"])];
    let (_, mut pipeline) = DefaultPipelineProducer::produce(definition(pipeline_map)).unwrap();

    assert!(!pipeline.is_cyclic());
    let a = pipeline.id_of("A").unwrap();
    let b = pipeline.id_of("B").unwrap();
    let c = pipeline.id_of("C").unwrap();

    println!("{:#?}", pipeline.graph);

    assert!(pipeline.graph.contains_edge(a, c));
    assert!(!pipeline.graph.contains_edge(c, a));
    assert!(!pipeline.graph.contains_edge(a, b));
    assert!(!pipeline.graph.contains_edge(b, a));
}

#[test]
fn test_cyclic_dependency_error() {
    let pipeline_map = vec![mock_step("node_a", vec!["node_b"]), mock_step("node_b", vec!["node_a"])];
    let result = DefaultPipelineProducer::produce(definition(pipeline_map));

    assert!(result.is_err());

    let err_msg = result.err().unwrap().to_string();
    assert!(err_msg.contains("cyclic"), "Error message should mention cycle: {}", err_msg);
}

#[test]
fn test_empty_pipeline() {
    let result = DefaultPipelineProducer::produce(definition(vec![]));

    assert!(result.is_ok());
    assert!(result.unwrap().1.is_empty());
}

#[test]
fn steps_are_numbered_in_order() {
    let pipeline_map = vec![mock_step("A", vec![]), mock_step("B", vec![]), mock_step("C", vec![])];
    let (global, pipeline) = DefaultPipelineProducer::produce(definition(pipeline_map)).unwrap();
    assert_eq!(global.project_root, "/tmp");
    assert_eq!(pipeline.len(), 3);
    assert_eq!(pipeline.id_of("A"), Some(0));
    assert_eq!(pipeline.id_of("B"), Some(1));
    assert_eq!(pipeline.id_of("C"), Some(2));
    assert_eq!(pipeline.id_of("D"), None);
    assert_eq!(pipeline.step_ids(), vec![0, 1, 2]);
    match pipeline.get_step(&1) {
        Some(ExecutionStep::RunStep(step)) => {
            assert_eq!(step.name, "B");
            assert_eq!(step.id, 1);
            assert_eq!(step.image, Some("B".to_string()));
            assert_eq!(step.run, vec!["echo hello".to_string()]);
        }
        _ => panic!("step 1 should be a run step"),
    }
    assert!(pipeline.get_step(&3).is_none());
}

#[test]
fn fallback_chain_is_exactly_the_neighbours() {
    let pipeline_map = vec![mock_step("A", vec![]), mock_step("B", vec![]), mock_step("C", vec![])];
    let (_, pipeline) = DefaultPipelineProducer::produce(definition(pipeline_map)).unwrap();
    assert_eq!(pipeline.graph.edge_count(), 2);
    assert!(!pipeline.graph.contains_edge(0, 2));
    assert!(pipeline.has_edge(0, 1));
    assert!(pipeline.has_edge(1, 2));
    assert_eq!(pipeline.dependency_count(0), 0);
    assert_eq!(pipeline.dependency_count(2), 1);
    assert_eq!(pipeline.dependents(0), vec![1]);
}

#[test]
fn a_repeated_name_stands_for_its_last_step() {
    // Without explicit dependencies, A -> B -> A makes the later A both depend on B and be
    // depended on by it: a cycle.
    let pipeline_map = vec![mock_step("A", vec![]), mock_step("B", vec![]), mock_step("A", vec![])];
    let result = DefaultPipelineProducer::produce(definition(pipeline_map));
    assert_eq!(result.err(), Some(PipelineError::Cyclic));
}

#[test]
fn add_step_hands_out_ids_in_order() {
    let mut pipeline = fabriken::pipeline::Pipeline::new();
    assert_eq!(pipeline.add_step(mock_step("A", vec![])), 0);
    assert_eq!(pipeline.add_step(mock_step("B", vec![])), 1);
    assert_eq!(pipeline.id_of("A"), Some(0));
    assert_eq!(pipeline.add_step(mock_step("A", vec![])), 2);
    assert_eq!(pipeline.id_of("A"), Some(2));
    assert_eq!(pipeline.id_of("B"), Some(1));
    assert_eq!(pipeline.graph.node_count(), 3);
    assert_eq!(pipeline.graph.edge_count(), 0);
}

#[test]
fn repeated_dependency_gives_one_edge() {
    let pipeline_map = vec![mock_step("A", vec![]), mock_step("B", vec!["A", "A"])];
    let (_, pipeline) = DefaultPipelineProducer::produce(definition(pipeline_map)).unwrap();
    assert_eq!(pipeline.graph.edge_count(), 1);
    assert!(pipeline.has_edge(0, 1));
}

#[test]
fn self_dependency_is_a_cycle() {
    let pipeline_map = vec![mock_step("A", vec!["A"])];
    let result = DefaultPipelineProducer::produce(definition(pipeline_map));
    assert_eq!(result.err(), Some(PipelineError::Cyclic));
}

#[test]
fn cyclic_message() {
    assert_eq!(PipelineError::Cyclic.to_string(), "Screw this pipeline, its cyclic!");
}

#[test]
fn containerize_steps_keep_their_engine() {
    let mut step = mock_step("image", vec![]);
    step.containerize = Some(Containerize {
        builder: Builder::Buildah,
        file: "Containerfile".to_string(),
        context: ".".to_string(),
        image: "app:latest".to_string(),
    });
    let (_, pipeline) = DefaultPipelineProducer::produce(definition(vec![step])).unwrap();
    match pipeline.get_step(&0) {
        Some(ExecutionStep::ContainerizeStep(step)) => {
            assert_eq!(step.id, 0);
            assert_eq!(step.name, "image");
            assert_eq!(step.file, "Containerfile");
            assert_eq!(step.context, ".");
            assert_eq!(step.image, "app:latest");
            assert_eq!(step.executor_engine, fabriken::executor::ContainerRunner::Buildah(fabriken::executor::Buildah));
        }
        _ => panic!("step 0 should be a containerize step"),
    }
}

#[test]
fn unknown_dependencies_are_detected() {
    assert!(dependencies_known(&definition(vec![mock_step("A", vec![]), mock_step("B", vec!["A"])])));
    assert!(!dependencies_known(&definition(vec![mock_step("A", vec!["missing"])])));
    assert!(dependencies_known(&definition(vec![])));
}

#[test]
fn earlier_steps_stay_after_more_steps_and_dependencies() {
    let mut pipeline = fabriken::pipeline::Pipeline::new();
    let a = pipeline.add_step(mock_step("A", vec![]));
    let b = pipeline.add_step(mock_step("B", vec![]));
    pipeline.depends_on(&"B".to_string(), &"A".to_string());
    let c = pipeline.add_step(mock_step("C", vec![]));
    pipeline.depends_on(&"C".to_string(), &"B".to_string());
    assert_eq!((a, b, c), (0, 1, 2));
    for (id, name) in [(a, "A"), (b, "B"), (c, "C")] {
        match pipeline.get_step(&id) {
            Some(ExecutionStep::RunStep(step)) => {
                assert_eq!(step.id, id);
                assert_eq!(step.name, name);
            }
            _ => panic!("step {} is missing", id),
        }
    }
    assert!(pipeline.get_step(&3).is_none());
}
