use pulse::api::{detail_failure, lifecycle_answer, list_failure};
use pulse::docker::{ComposeCommand, DockerComposeRuntime};
use pulse::health::{wait_step, HealthAction, HealthEvent};

#[test]
fn compose_arguments() {
    assert_eq!(
        DockerComposeRuntime::command_args(ComposeCommand::Up, "a/b.yml"),
        vec!["compose", "-f", "a/b.yml", "up", "-d", "--wait"]
    );
    assert_eq!(DockerComposeRuntime::command_args(ComposeCommand::Down, "x.yml"), vec!["compose", "-f", "x.yml", "down"]);
    assert_eq!(
        DockerComposeRuntime::command_args(ComposeCommand::Ps, "x.yml"),
        vec!["compose", "-f", "x.yml", "ps", "--format", "json"]
    );
    assert_eq!(DockerComposeRuntime::command_timeout_secs(ComposeCommand::Ps), 60);
    assert_eq!(DockerComposeRuntime::command_timeout_secs(ComposeCommand::Up), 120);
}

#[test]
fn health_wait_steps() {
    assert_eq!(wait_step("u", 60, 0, HealthEvent::Begin), HealthAction::Probe);
    assert_eq!(wait_step("u", 60, 5, HealthEvent::Probed(false)), HealthAction::Sleep);
    assert_eq!(wait_step("u", 60, 5, HealthEvent::Probed(true)), HealthAction::Healthy);
    assert_eq!(wait_step("u", 60, 59, HealthEvent::Slept), HealthAction::Probe);
    assert_eq!(
        wait_step("http://x/health", 60, 60, HealthEvent::Slept),
        HealthAction::TimedOut("Timeout reached while waiting for http://x/health to become healthy".to_string())
    );
    assert_eq!(
        wait_step("u", 0, 0, HealthEvent::Begin),
        HealthAction::TimedOut("Timeout reached while waiting for u to become healthy".to_string())
    );
}

#[test]
fn api_failures() {
    let e = list_failure("db gone");
    assert_eq!((e.status, e.message.as_str()), (500, "failed to list applications: db gone"));
    let e = detail_failure("quiz", "app not found");
    assert_eq!((e.status, e.message.as_str()), (404, "application 'quiz' not found"));
    let e = detail_failure("quiz", "disk on fire");
    assert_eq!((e.status, e.message.as_str()), (500, "failed to get application: disk on fire"));
    assert_eq!(lifecycle_answer("start", Ok(())), Ok(204));
    let e = lifecycle_answer("stop", Err("lock not found for app".to_string())).unwrap_err();
    assert_eq!((e.status, e.message.as_str()), (500, "stop failed: lock not found for app"));
}
