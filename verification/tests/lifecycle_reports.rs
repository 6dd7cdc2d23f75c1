use pulse::domain::{Application, HealthConfig, Stack};
use pulse::lifecycle::boot::{stack_shows_running, BootAction, BootEvent, BootPhase};
use pulse::lifecycle::manager::LifeCycleManager;
use pulse::lifecycle::report::{dependency_tree, status_report, AppDetail, AppSummary};

fn s(x: &str) -> String {
    x.to_string()
}

fn quiz() -> Application {
    Application {
        name: s("quiz"),
        stacks: vec![
            (s("frontend"), Stack { compose: s("web/compose.yml"), health: None }),
            (s("backend"), Stack { compose: s("api/compose.yml"), health: Some(s("http://localhost:8000/health")) }),
        ],
        dependencies: Some(vec![s("persona"), s("identity")]),
        routes: vec![s("/quiz"), s("/quiz-ws")],
        idle_timeout: Some(s("30m")),
        health: HealthConfig { backend: Some(s("http://localhost:8000/health")) },
    }
}

fn bare(name: &str) -> Application {
    Application { name: s(name), stacks: vec![], dependencies: None, routes: vec![], idle_timeout: None, health: HealthConfig { backend: None } }
}

#[test]
fn summary_lists_routes() {
    let sum = AppSummary::of(&quiz(), &Some(s("HealthCheck")));
    assert_eq!(sum.id, "quiz");
    assert_eq!(sum.name, "quiz");
    assert_eq!(sum.status, "starting");
    assert_eq!(sum.description, Some(s("Routes: /quiz, /quiz-ws")));
    let none = AppSummary::of(&bare("x"), &None);
    assert_eq!(none.status, "stopped");
    assert_eq!(none.description, None);
}

#[test]
fn detail_copies_the_manifest() {
    let d = AppDetail::of(&quiz(), &Some(s("Running")));
    assert_eq!(d.status, "running");
    assert_eq!(d.routes, vec![s("/quiz"), s("/quiz-ws")]);
    assert_eq!(d.dependencies, vec![s("persona"), s("identity")]);
    assert_eq!(d.idle_timeout, Some(s("30m")));
    assert_eq!(d.stacks.len(), 2);
    assert_eq!(d.stacks[1].name, "backend");
    assert_eq!(d.stacks[1].compose, "api/compose.yml");
    assert_eq!(d.stacks[1].health_url, Some(s("http://localhost:8000/health")));
    assert!(AppDetail::of(&bare("x"), &Some(s("Failed"))).dependencies.is_empty());
    assert_eq!(AppDetail::of(&bare("x"), &Some(s("Failed"))).status, "error");
}

#[test]
fn status_report_lines() {
    let r = status_report(&quiz(), vec![s("[]"), s("[{\"State\":\"running\"}]")]);
    assert_eq!(
        r,
        "[]\n[{\"State\":\"running\"}]\nroutes: /quiz, /quiz-ws\nidle_timeout: 30m\ndependencies: persona, identity"
    );
    assert_eq!(status_report(&bare("x"), vec![]), "");
    let mut empty_deps = bare("y");
    empty_deps.dependencies = Some(vec![]);
    assert_eq!(status_report(&empty_deps, vec![s("ok")]), "ok\ndependencies: ");
}

#[test]
fn dependency_tree_text() {
    let lines = dependency_tree(&[quiz(), bare("persona")]);
    assert_eq!(
        lines,
        vec![
            s("Pulse Applications Dependency Tree:"),
            s("📦 quiz"),
            s(" ├─ depends on: persona"),
            s(" └─ depends on: identity"),
            s(""),
            s("📦 persona"),
            s(" └─ (no dependencies)"),
            s(""),
        ]
    );
}

#[test]
fn compose_ps_output() {
    assert!(stack_shows_running("[{\"State\":\"RUNNING\"}]"));
    assert!(stack_shows_running("Up 3 minutes"));
    assert!(!stack_shows_running("[]"));
    assert!(!stack_shows_running("exited"));
}

fn boot(m: &LifeCycleManager, events: Vec<BootEvent>) -> Vec<BootAction> {
    let mut phase = BootPhase::Begin;
    let mut out = Vec::new();
    for e in events {
        let (p, a) = m.boot_step(phase, e);
        phase = p;
        out.push(a);
    }
    out
}

#[test]
fn boot_marks_stale_running_apps_stopped() {
    let m = LifeCycleManager::new(vec![quiz(), bare("persona")]);
    let actions = boot(
        &m,
        vec![
            BootEvent::Next,
            BootEvent::StateLoaded(Some(s("Running"))),
            BootEvent::StackStatus(Some(s("[]"))),
            BootEvent::StackStatus(None),
            BootEvent::Next,
            BootEvent::StateLoaded(Some(s("Stopped"))),
        ],
    );
    assert_eq!(
        actions,
        vec![
            BootAction::ReadState { app: s("quiz") },
            BootAction::QueryStack { compose: s("web/compose.yml") },
            BootAction::QueryStack { compose: s("api/compose.yml") },
            BootAction::MarkStopped { app: s("quiz") },
            BootAction::ReadState { app: s("persona") },
            BootAction::Done,
        ]
    );
}

#[test]
fn boot_leaves_apps_that_are_up() {
    let m = LifeCycleManager::new(vec![quiz()]);
    let actions = boot(
        &m,
        vec![BootEvent::Next, BootEvent::StateLoaded(Some(s("starting"))), BootEvent::StackStatus(Some(s("Up 2 seconds")))],
    );
    assert_eq!(actions[2], BootAction::Done);
}
