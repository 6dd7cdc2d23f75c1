use pulse::domain::{Application, HealthConfig, Stack, State};
use pulse::lifecycle::job::{Action, Event, Job, LifecycleError, Operation};
use pulse::lifecycle::manager::LifeCycleManager;

fn app(name: &str, stacks: &[&str], deps: &[&str], backend: Option<&str>, idle: Option<&str>) -> Application {
    Application {
        name: name.to_string(),
        stacks: stacks
            .iter()
            .map(|s| (s.to_string(), Stack { compose: format!("{name}/{s}.yml"), health: None }))
            .collect(),
        dependencies: if deps.is_empty() { None } else { Some(deps.iter().map(|s| s.to_string()).collect()) },
        routes: vec![],
        idle_timeout: idle.map(|s| s.to_string()),
        health: HealthConfig { backend: backend.map(|s| s.to_string()) },
    }
}

fn registry() -> LifeCycleManager {
    LifeCycleManager::new(vec![
        app("quiz", &["frontend", "backend"], &["persona"], Some("http://localhost:8000/health"), Some("30m")),
        app("persona", &["main"], &[], Some("http://localhost:8100/health"), None),
    ])
}

fn s(x: &str) -> String {
    x.to_string()
}

/// Drives a job, answering each action with the given events in turn.
fn drive(m: &LifeCycleManager, mut job: Job, events: Vec<Event>) -> Vec<Action> {
    let mut out = Vec::new();
    for e in events {
        out.push(job.step(m, e));
    }
    out
}

#[test]
fn start_runs_dependencies_first() {
    let m = registry();
    let job = Job::new(Operation::Start, s("quiz"));
    let mut events = vec![Event::Done, Event::Done, Event::StateLoaded(Some(s("Stopped")))];
    events.extend((0..13).map(|_| Event::Done));
    let actions = drive(&m, job, events);
    assert_eq!(
        actions,
        vec![
            Action::Lock { app: s("quiz") },
            Action::ReadState { app: s("quiz") },
            Action::WriteState { app: s("quiz"), state: State::Starting },
            Action::StartStack { compose: s("persona/main.yml") },
            Action::WriteState { app: s("persona"), state: State::HealthCheck },
            Action::AwaitHealthy { url: s("http://localhost:8100/health"), timeout_secs: 60 },
            Action::WriteState { app: s("persona"), state: State::Running },
            Action::StartStack { compose: s("quiz/frontend.yml") },
            Action::StartStack { compose: s("quiz/backend.yml") },
            Action::WriteState { app: s("quiz"), state: State::HealthCheck },
            Action::AwaitHealthy { url: s("http://localhost:8000/health"), timeout_secs: 60 },
            Action::WriteState { app: s("quiz"), state: State::Running },
            Action::Finish { result: Ok(()) },
            Action::Finish { result: Ok(()) },
            Action::Finish { result: Ok(()) },
            Action::Finish { result: Ok(()) },
        ]
    );
}

#[test]
fn start_of_a_running_app_does_nothing() {
    let m = registry();
    let actions = drive(
        &m,
        Job::new(Operation::Start, s("quiz")),
        vec![Event::Done, Event::Done, Event::StateLoaded(Some(s("Running"))), Event::Done],
    );
    assert_eq!(actions[2], Action::Finish { result: Ok(()) });
    assert_eq!(actions[3], Action::Finish { result: Ok(()) });
}

#[test]
fn start_of_an_unknown_app_fails_without_a_lock() {
    let m = registry();
    let actions = drive(&m, Job::new(Operation::Start, s("ghost")), vec![Event::Done]);
    assert_eq!(actions, vec![Action::Finish { result: Err(LifecycleError::LockNotFound) }]);
    assert_eq!(LifecycleError::LockNotFound.message(), "lock not found for app");
}

#[test]
fn unhealthy_dependency_is_marked_failed() {
    let m = registry();
    let actions = drive(
        &m,
        Job::new(Operation::Start, s("quiz")),
        vec![
            Event::Done,
            Event::Done,
            Event::StateLoaded(None),
            Event::Done,
            Event::Done,
            Event::Done,
            Event::Failed(s("Timeout reached")),
            Event::Done,
        ],
    );
    assert_eq!(actions[5], Action::AwaitHealthy { url: s("http://localhost:8100/health"), timeout_secs: 60 });
    assert_eq!(actions[6], Action::WriteState { app: s("persona"), state: State::Failed });
    let err = LifecycleError::DependencyUnhealthy { dependency: s("persona"), reason: s("Timeout reached") };
    assert_eq!(err.message(), "dependency persona failed health check: Timeout reached");
    assert_eq!(actions[7], Action::Finish { result: Err(err) });
}

#[test]
fn unhealthy_app_reports_the_health_error() {
    let m = registry();
    let mut events = vec![Event::Done, Event::Done, Event::StateLoaded(None)];
    events.extend((0..8).map(|_| Event::Done));
    events.push(Event::Failed(s("no answer")));
    events.push(Event::Done);
    let actions = drive(&m, Job::new(Operation::Start, s("quiz")), events);
    assert_eq!(actions[10], Action::AwaitHealthy { url: s("http://localhost:8000/health"), timeout_secs: 60 });
    assert_eq!(actions[11], Action::WriteState { app: s("quiz"), state: State::Failed });
    assert_eq!(actions[12], Action::Finish { result: Err(LifecycleError::Failed(s("no answer"))) });
}

#[test]
fn a_failing_stack_marks_its_application_failed() {
    let m = registry();
    let actions = drive(
        &m,
        Job::new(Operation::Start, s("quiz")),
        vec![Event::Done, Event::Done, Event::StateLoaded(None), Event::Done, Event::Failed(s("docker down")), Event::Done],
    );
    assert_eq!(actions[3], Action::StartStack { compose: s("persona/main.yml") });
    assert_eq!(actions[4], Action::WriteState { app: s("persona"), state: State::Failed });
    assert_eq!(actions[5], Action::Finish { result: Err(LifecycleError::Failed(s("docker down"))) });
}

#[test]
fn missing_dependency_is_reported_after_marking_starting() {
    let m = LifeCycleManager::new(vec![app("a", &["main"], &["ghost"], None, None)]);
    let actions = drive(
        &m,
        Job::new(Operation::Start, s("a")),
        vec![Event::Done, Event::Done, Event::StateLoaded(None), Event::Done],
    );
    assert_eq!(actions[2], Action::WriteState { app: s("a"), state: State::Starting });
    assert_eq!(actions[3], Action::Finish { result: Err(LifecycleError::AppNotFound) });
    assert_eq!(LifecycleError::AppNotFound.message(), "app not found");
}

#[test]
fn stop_keeps_a_dependency_of_a_running_app() {
    let m = registry();
    let actions = drive(
        &m,
        Job::new(Operation::Stop, s("persona")),
        vec![Event::Done, Event::Done, Event::StateLoaded(Some(s("Running"))), Event::Done],
    );
    assert_eq!(actions[1], Action::ReadState { app: s("quiz") });
    assert_eq!(actions[2], Action::Finish { result: Ok(()) });
    assert_eq!(actions[3], Action::Finish { result: Ok(()) });
}

#[test]
fn stop_proceeds_when_dependents_are_down() {
    let m = registry();
    let actions = drive(
        &m,
        Job::new(Operation::Stop, s("persona")),
        vec![Event::Done, Event::Done, Event::StateLoaded(Some(s("Stopped"))), Event::Done, Event::Done, Event::Done],
    );
    assert_eq!(
        actions,
        vec![
            Action::Lock { app: s("persona") },
            Action::ReadState { app: s("quiz") },
            Action::WriteState { app: s("persona"), state: State::Stopping },
            Action::StopStack { compose: s("persona/main.yml") },
            Action::WriteState { app: s("persona"), state: State::Stopped },
            Action::Finish { result: Ok(()) },
        ]
    );
}

#[test]
fn stop_marks_idle_when_there_is_an_idle_timeout() {
    let m = registry();
    let actions = drive(
        &m,
        Job::new(Operation::Stop, s("quiz")),
        vec![Event::Done, Event::Done, Event::Done, Event::Done, Event::Done, Event::Done],
    );
    assert_eq!(
        actions,
        vec![
            Action::Lock { app: s("quiz") },
            Action::WriteState { app: s("quiz"), state: State::Stopping },
            Action::StopStack { compose: s("quiz/frontend.yml") },
            Action::StopStack { compose: s("quiz/backend.yml") },
            Action::WriteState { app: s("quiz"), state: State::Idle },
            Action::Finish { result: Ok(()) },
        ]
    );
}

#[test]
fn restart_restarts_every_stack_and_waits_for_health() {
    let m = registry();
    let actions = drive(&m, Job::new(Operation::Restart, s("quiz")), (0..8).map(|_| Event::Done).collect());
    assert_eq!(
        actions,
        vec![
            Action::Lock { app: s("quiz") },
            Action::WriteState { app: s("quiz"), state: State::Stopping },
            Action::RestartStack { compose: s("quiz/frontend.yml") },
            Action::RestartStack { compose: s("quiz/backend.yml") },
            Action::WriteState { app: s("quiz"), state: State::HealthCheck },
            Action::AwaitHealthy { url: s("http://localhost:8000/health"), timeout_secs: 60 },
            Action::WriteState { app: s("quiz"), state: State::Running },
            Action::Finish { result: Ok(()) },
        ]
    );
}

#[test]
fn an_unhealthy_restart_is_marked_failed() {
    let m = registry();
    let mut events: Vec<Event> = (0..6).map(|_| Event::Done).collect();
    events.push(Event::Failed(s("Timeout reached")));
    events.push(Event::Done);
    let actions = drive(&m, Job::new(Operation::Restart, s("quiz")), events);
    assert_eq!(actions[5], Action::AwaitHealthy { url: s("http://localhost:8000/health"), timeout_secs: 60 });
    assert_eq!(actions[6], Action::WriteState { app: s("quiz"), state: State::Failed });
    assert_eq!(actions[7], Action::Finish { result: Err(LifecycleError::Failed(s("Timeout reached"))) });
}

#[test]
fn a_failed_state_write_ends_the_job() {
    let m = registry();
    let actions = drive(&m, Job::new(Operation::Restart, s("quiz")), vec![Event::Done, Event::Done, Event::Failed(s("db locked"))]);
    assert_eq!(actions[2], Action::Finish { result: Err(LifecycleError::Failed(s("db locked"))) });
    assert_eq!(LifecycleError::Failed(s("db locked")).message(), "db locked");
}
