use pulse::domain::{Application, HealthConfig, Stack, State};
use pulse::lifecycle::manager::{normalize_status, LifeCycleManager};

fn app(name: &str, deps: Option<Vec<&str>>, backend: Option<&str>) -> Application {
    Application {
        name: name.to_string(),
        stacks: vec![(
            "main".to_string(),
            Stack { compose: format!("{name}/compose.yml"), health: None },
        )],
        dependencies: deps.map(|d| d.into_iter().map(|s| s.to_string()).collect()),
        routes: vec![],
        idle_timeout: None,
        health: HealthConfig { backend: backend.map(|s| s.to_string()) },
    }
}

#[test]
fn status_classes_follow_the_stored_text() {
    assert_eq!(normalize_status("Running"), "running");
    assert_eq!(normalize_status("running"), "running");
    assert_eq!(normalize_status("HealthCheck"), "starting");
    assert_eq!(normalize_status("Starting"), "starting");
    assert_eq!(normalize_status("STOPPING"), "starting");
    assert_eq!(normalize_status("Failed"), "error");
    assert_eq!(normalize_status("Idle"), "stopped");
    assert_eq!(normalize_status("stopped"), "stopped");
    assert_eq!(normalize_status("whatever"), "stopped");
    assert_eq!(normalize_status(""), "stopped");
}

#[test]
fn state_labels_are_variant_names() {
    assert_eq!(State::Starting.label(), "Starting");
    assert_eq!(State::Stopped.label(), "Stopped");
    assert_eq!(State::HealthCheck.label(), "HealthCheck");
    assert_eq!(State::Running.label(), "Running");
    assert_eq!(State::Idle.label(), "Idle");
    assert_eq!(State::Stopping.label(), "Stopping");
    assert_eq!(State::Failed.label(), "Failed");
}

#[test]
fn find_app_takes_the_first_of_a_name() {
    let m = LifeCycleManager::new(vec![app("a", None, None), app("b", None, None), app("a", None, None)]);
    assert_eq!(m.find_app("a"), Some(0));
    assert_eq!(m.find_app("b"), Some(1));
    assert_eq!(m.find_app("c"), None);
    assert_eq!(m.get_apps().len(), 3);
}

#[test]
fn dependencies_come_before_dependents() {
    let m = LifeCycleManager::new(vec![
        app("quiz", Some(vec!["persona", "identity"]), None),
        app("persona", Some(vec!["identity"]), None),
        app("identity", None, None),
    ]);
    let (order, idx) = m.collect_dependency_names(0).unwrap();
    assert_eq!(order, vec!["identity".to_string(), "persona".to_string()]);
    assert_eq!(idx, vec![2, 1]);
    let (order, _) = m.collect_dependency_names(2).unwrap();
    assert!(order.is_empty());
}

#[test]
fn a_dependency_cycle_still_terminates() {
    let m = LifeCycleManager::new(vec![app("a", Some(vec!["b"]), None), app("b", Some(vec!["a"]), None)]);
    let (order, _) = m.collect_dependency_names(0).unwrap();
    assert_eq!(order, vec!["a".to_string(), "b".to_string()]);
}

#[test]
fn an_unknown_dependency_gives_none() {
    let m = LifeCycleManager::new(vec![app("a", Some(vec!["b"]), None), app("b", Some(vec!["ghost"]), None)]);
    assert!(m.collect_dependency_names(0).is_none());
}

#[test]
fn dependents_are_listed_per_declaration() {
    let m = LifeCycleManager::new(vec![
        app("quiz", Some(vec!["persona"]), None),
        app("persona", None, None),
        app("chat", Some(vec!["persona", "persona"]), None),
    ]);
    assert_eq!(m.dependents_of("persona"), vec!["quiz".to_string(), "chat".to_string(), "chat".to_string()]);
    assert!(m.dependents_of("quiz").is_empty());
}
