use pulse::domain::{idle_timeout_fits, idle_timeout_seconds, Application, HealthConfig};
use std::time::Duration;

fn app_with_timeout(t: Option<&str>) -> Application {
    Application {
        name: "a".to_string(),
        stacks: vec![],
        dependencies: None,
        routes: vec![],
        idle_timeout: t.map(|s| s.to_string()),
        health: HealthConfig { backend: None },
    }
}

#[test]
fn timeout_units() {
    assert_eq!(idle_timeout_seconds("30m"), Some(1800));
    assert_eq!(idle_timeout_seconds("2h"), Some(7200));
    assert_eq!(idle_timeout_seconds("45s"), Some(45));
    assert_eq!(idle_timeout_seconds("45secs"), Some(45));
    assert_eq!(idle_timeout_seconds("1 hr"), Some(3600));
    assert_eq!(idle_timeout_seconds("10mins"), Some(600));
    assert_eq!(idle_timeout_seconds("3 sec"), Some(3));
}

#[test]
fn timeout_rejects_missing_digits_or_units() {
    assert_eq!(idle_timeout_seconds("m"), None);
    assert_eq!(idle_timeout_seconds("30"), None);
    assert_eq!(idle_timeout_seconds("30d"), None);
    assert_eq!(idle_timeout_seconds(""), None);
    assert_eq!(idle_timeout_seconds("30 minutes"), None);
    assert_eq!(idle_timeout_seconds("99999999999999999999s"), None);
}

#[test]
fn timeout_ignores_other_characters() {
    assert_eq!(idle_timeout_seconds("1.5h"), Some(15 * 3600));
    assert_eq!(idle_timeout_seconds("-5m"), Some(300));
}

#[test]
fn timeout_range() {
    assert!(idle_timeout_fits("30m"));
    assert!(idle_timeout_fits("bogus"));
    assert!(idle_timeout_fits("18446744073709551615s"));
    assert!(!idle_timeout_fits("18446744073709551615m"));
    assert!(!app_with_timeout(Some("18446744073709551615h")).idle_timeout_fits());
    assert!(app_with_timeout(None).idle_timeout_fits());
}

#[test]
fn parsed_idle_timeout_gives_durations() {
    assert_eq!(app_with_timeout(Some("30m")).parsed_idle_timeout(), Some(Duration::from_secs(1800)));
    assert_eq!(app_with_timeout(Some("1h")).parsed_idle_timeout(), Some(Duration::from_secs(3600)));
    assert_eq!(app_with_timeout(Some("30x")).parsed_idle_timeout(), None);
    assert_eq!(app_with_timeout(None).parsed_idle_timeout(), None);
}
