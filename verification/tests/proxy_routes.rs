use pulse::domain::{Application, HealthConfig};
use pulse::proxy::router::{
    derive_backend_base, needs_wake, wake_failure_body, ProxyTarget, RouteTable, SkipReason,
};

fn app(name: &str, routes: &[&str], backend: Option<&str>) -> Application {
    Application {
        name: name.to_string(),
        stacks: vec![],
        dependencies: None,
        routes: routes.iter().map(|s| s.to_string()).collect(),
        idle_timeout: None,
        health: HealthConfig { backend: backend.map(|s| s.to_string()) },
    }
}

#[test]
fn backend_base_from_health_url() {
    assert_eq!(derive_backend_base("http://localhost:8000/health"), Some("http://localhost:8000".to_string()));
    assert_eq!(derive_backend_base("https://example.com/ready?x=1"), Some("https://example.com".to_string()));
    assert_eq!(derive_backend_base("/health"), None);
    assert_eq!(derive_backend_base("not a uri"), None);
}

#[test]
fn table_is_longest_prefix_first_and_skips_apps_without_backend() {
    let apps = vec![
        app("quiz", &["/quiz"], Some("http://localhost:8000/health")),
        app("quiz-api", &["/quiz/api"], Some("http://localhost:8001/health")),
        app("silent", &["/silent"], None),
        app("broken", &["/broken"], Some("/health")),
    ];
    let t = RouteTable::build(&apps);
    let prefixes: Vec<&str> = t.routes.iter().map(|r| r.0.as_str()).collect();
    assert_eq!(prefixes, vec!["/quiz/api", "/quiz"]);
    assert_eq!(t.skipped.len(), 2);
    assert_eq!(t.skipped[0], ("silent".to_string(), SkipReason::NoHealthUrl));
    assert_eq!(t.skipped[1], ("broken".to_string(), SkipReason::UnparsableHealthUrl("/health".to_string())));
}

#[test]
fn last_application_listing_a_prefix_owns_it() {
    let apps = vec![
        app("first", &["/x"], Some("http://localhost:1/h")),
        app("second", &["/x"], Some("http://localhost:2/h")),
    ];
    let t = RouteTable::build(&apps);
    assert_eq!(t.routes.len(), 1);
    assert_eq!(t.routes[0].1.app_name, "second");
    assert_eq!(t.routes[0].1.backend_base, "http://localhost:2");
}

#[test]
fn matching_respects_segments() {
    let apps = vec![
        app("quiz", &["/quiz"], Some("http://localhost:8000/health")),
        app("quiz-api", &["/quiz/api"], Some("http://localhost:8001/health")),
    ];
    let t = RouteTable::build(&apps);
    assert_eq!(t.match_route("/quiz/api/game"), Some(0));
    assert_eq!(t.match_route("/quiz/apis"), Some(1));
    assert_eq!(t.match_route("/quiz"), Some(1));
    assert_eq!(t.match_route("/quizzes"), None);
    assert_eq!(t.match_route("/"), None);
}

#[test]
fn plan_strips_the_prefix() {
    let apps = vec![app("quiz", &["/quiz"], Some("http://localhost:8000/health"))];
    let t = RouteTable::build(&apps);
    assert_eq!(
        t.plan("/quiz/api/game/create", None, "http://127.0.0.1:4173"),
        ProxyTarget::Route { app_name: "quiz".to_string(), target: "http://localhost:8000/api/game/create".to_string() }
    );
    assert_eq!(
        t.plan("/quiz", Some("a=1&b=2"), "http://127.0.0.1:4173"),
        ProxyTarget::Route { app_name: "quiz".to_string(), target: "http://localhost:8000/?a=1&b=2".to_string() }
    );
}

#[test]
fn plan_treats_every_application_alike() {
    let a = RouteTable::build(&vec![app("quiz-ui", &["/play"], Some("http://localhost:3000/"))]);
    let b = RouteTable::build(&vec![app("quiz", &["/play"], Some("http://localhost:3000/"))]);
    assert_eq!(
        a.plan("/play/room/7", Some("x=1"), "http://127.0.0.1:4173"),
        ProxyTarget::Route { app_name: "quiz-ui".to_string(), target: "http://localhost:3000/room/7?x=1".to_string() }
    );
    assert_eq!(
        b.plan("/play/room/7", Some("x=1"), "http://127.0.0.1:4173"),
        ProxyTarget::Route { app_name: "quiz".to_string(), target: "http://localhost:3000/room/7?x=1".to_string() }
    );
    assert_eq!(
        a.plan("/play", None, "http://127.0.0.1:4173"),
        ProxyTarget::Route { app_name: "quiz-ui".to_string(), target: "http://localhost:3000/".to_string() }
    );
}

#[test]
fn unmatched_requests_go_to_the_dashboard() {
    let apps = vec![app("quiz", &["/quiz"], Some("http://localhost:8000/health"))];
    let t = RouteTable::build(&apps);
    assert_eq!(
        t.plan("/assets/app.js", Some("v=3"), "http://127.0.0.1:4173"),
        ProxyTarget::Dashboard { target: "http://127.0.0.1:4173/assets/app.js?v=3".to_string() }
    );
}

#[test]
fn wake_decision() {
    assert!(needs_wake(&None));
    assert!(needs_wake(&Some("Stopped".to_string())));
    assert!(needs_wake(&Some("HealthCheck".to_string())));
    assert!(!needs_wake(&Some("Running".to_string())));
    assert!(!needs_wake(&Some("running".to_string())));
}

#[test]
fn wake_failure_text() {
    assert_eq!(wake_failure_body("quiz", "boom"), "pulse proxy: could not start 'quiz': boom");
}
