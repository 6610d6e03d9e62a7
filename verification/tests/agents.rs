use fabriken::agents::{
    AgentId, AgentInfo, AgentRegistration, AgentRepository, AgentStatus, HealthRegistry, HealthReportEvent,
    ServingStatus, WatchAction, WatchMessage, register_agent, watch_step,
};

fn registration(status: AgentStatus) -> AgentRegistration {
    AgentRegistration { cpu_cores: 8, memory_gb: 16, status, addr: "[::1]:50052".to_string() }
}

fn id(name: &str) -> AgentId {
    AgentId(name.to_string())
}

#[test]
fn register_then_get() {
    let mut repo = AgentRepository::new();
    repo.register(id("hungry_hippo"), registration(AgentStatus::Healthy), 10);
    assert_eq!(
        repo.get(&id("hungry_hippo")),
        Some(AgentInfo { cpu_cores: 8, memory_gb: 16, last_update: 10, status: AgentStatus::Healthy, time_registered: 10 })
    );
    assert_eq!(repo.get(&id("other")), None);
    assert_eq!(repo.len(), 1);
}

#[test]
fn registering_again_replaces() {
    let mut repo = AgentRepository::new();
    repo.register(id("a"), registration(AgentStatus::Healthy), 10);
    repo.register(id("b"), registration(AgentStatus::Healthy), 11);
    repo.register(id("a"), registration(AgentStatus::Unknown), 12);
    assert_eq!(repo.len(), 2);
    let info = repo.get(&id("a")).unwrap();
    assert_eq!(info.time_registered, 12);
    assert_eq!(info.status, AgentStatus::Unknown);
}

#[test]
fn set_status_updates_known_agents_only() {
    let mut repo = AgentRepository::new();
    repo.register(id("a"), registration(AgentStatus::Healthy), 10);
    repo.set_status(&id("a"), AgentStatus::Disconnected, 20);
    let info = repo.get(&id("a")).unwrap();
    assert_eq!(info.status, AgentStatus::Disconnected);
    assert_eq!(info.last_update, 20);
    assert_eq!(info.time_registered, 10);
    repo.set_status(&id("ghost"), AgentStatus::Healthy, 30);
    assert_eq!(repo.get(&id("ghost")), None);
    assert_eq!(repo.len(), 1);
}

#[test]
fn serving_status_to_agent_status() {
    assert_eq!(AgentStatus::from(ServingStatus::Unknown), AgentStatus::Unknown);
    assert_eq!(AgentStatus::from(ServingStatus::Serving), AgentStatus::Healthy);
    assert_eq!(AgentStatus::from(ServingStatus::NotServing), AgentStatus::Disconnected);
    assert_eq!(AgentStatus::from(ServingStatus::ServiceUnknown), AgentStatus::Unhealthy);
}

#[test]
fn health_reports() {
    let mut repo = AgentRepository::new();
    let mut registry = HealthRegistry::new();
    repo.register(id("a"), registration(AgentStatus::Healthy), 1);

    assert_eq!(registry.handle(&mut repo, HealthReportEvent::Register(id("a"), 100), 2), None);
    assert_eq!(registry.handle(&mut repo, HealthReportEvent::Register(id("a"), 101), 3), Some(100));
    assert_eq!(registry.handle(&mut repo, HealthReportEvent::StatusUpdate(id("a"), AgentStatus::Unhealthy), 4), None);
    assert_eq!(repo.get(&id("a")).unwrap().status, AgentStatus::Unhealthy);

    assert_eq!(registry.handle(&mut repo, HealthReportEvent::Cancel(id("a")), 5), Some(101));
    let info = repo.get(&id("a")).unwrap();
    assert_eq!(info.status, AgentStatus::Offline);
    assert_eq!(info.last_update, 5);
    assert_eq!(registry.handle(&mut repo, HealthReportEvent::Cancel(id("a")), 6), None);
    assert_eq!(registry.remove(&id("a")), None);
}

#[test]
fn agent_ids_compare_by_name() {
    assert!(id("x") == id("x"));
    assert!(id("x") != id("y"));
}

#[test]
fn registration_starts_healthy_with_unknown_resources() {
    let mut repo = AgentRepository::new();
    let id = register_agent(&mut repo, "hungry_hippo".to_string(), "[::1]:50052".to_string(), 42);
    assert_eq!(id.0, "hungry_hippo");
    assert_eq!(
        repo.get(&id),
        Some(AgentInfo { cpu_cores: 0, memory_gb: 0, last_update: 42, status: AgentStatus::Healthy, time_registered: 42 })
    );
}

#[test]
fn watches_report_until_the_stream_ends() {
    assert_eq!(watch_step(WatchMessage::Status(ServingStatus::Serving)), WatchAction::Report(AgentStatus::Healthy));
    assert_eq!(
        watch_step(WatchMessage::Status(ServingStatus::NotServing)),
        WatchAction::Report(AgentStatus::Disconnected)
    );
    assert_eq!(watch_step(WatchMessage::Closed), WatchAction::Stop);
    assert_eq!(watch_step(WatchMessage::Failed), WatchAction::Stop);
}
