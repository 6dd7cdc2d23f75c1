use pulse::domain::{Application, HealthConfig, Stack};
use pulse::lifecycle::dag::dependency_dag;
use pulse::lifecycle::idle::idle_stop_due;
use pulse::lifecycle::job::LifecycleError;
use pulse::lifecycle::manager::LifeCycleManager;
use pulse::lifecycle::report::list_summaries;
use pulse::proxy::answer::{after_wake, upgraded, upstream_answer, Answer, RouteStep, UpstreamFailure};

fn s(x: &str) -> String {
    x.to_string()
}

fn app(name: &str, deps: &[&str], idle: Option<&str>) -> Application {
    Application {
        name: s(name),
        stacks: vec![(s("main"), Stack { compose: format!("{name}.yml"), health: None })],
        dependencies: if deps.is_empty() { None } else { Some(deps.iter().map(|d| s(d)).collect()) },
        routes: vec![],
        idle_timeout: idle.map(s),
        health: HealthConfig { backend: None },
    }
}

#[test]
fn idle_apps_past_their_timeout_are_stopped() {
    let a = app("quiz", &[], Some("30m"));
    let running = Some(s("Running"));
    assert!(idle_stop_due(&a, &running, Some((1801, 0))));
    assert!(idle_stop_due(&a, &running, Some((1800, 1))));
    assert!(!idle_stop_due(&a, &running, Some((1800, 0))));
    assert!(!idle_stop_due(&a, &running, Some((10, 0))));
    assert!(!idle_stop_due(&a, &running, None));
    assert!(!idle_stop_due(&a, &Some(s("Stopped")), Some((5000, 0))));
    assert!(!idle_stop_due(&a, &None, Some((5000, 0))));
    assert!(!idle_stop_due(&app("quiz", &[], None), &running, Some((5000, 0))));
    assert!(!idle_stop_due(&app("quiz", &[], Some("30x")), &running, Some((5000, 0))));
}

#[test]
fn unit_spellings_agree() {
    let h = app("a", &[], Some("2h")).parsed_idle_timeout();
    let m = app("a", &[], Some("120m")).parsed_idle_timeout();
    let sec = app("a", &[], Some("7200s")).parsed_idle_timeout();
    assert_eq!(h, Some(std::time::Duration::from_secs(7200)));
    assert_eq!(h, m);
    assert_eq!(m, sec);
}

#[test]
fn dag_matches_the_ascii_dag_drawing() {
    let apps = vec![app("quiz", &["persona", "ghost"], None), app("persona", &[], None), app("identity", &["persona"], None)];
    let mut g = ascii_dag::graph::Graph::new();
    g.add_node(1, " quiz ");
    g.add_node(2, " persona ");
    g.add_node(3, " identity ");
    g.add_edge(1, 2, None);
    g.add_edge(3, 2, None);
    let out = dependency_dag(&apps);
    assert_eq!(out, g.render());
    assert!(out.contains("quiz"));
    assert!(!out.contains("ghost"));
}

#[test]
fn dag_uses_the_last_of_duplicate_names() {
    let apps = vec![app("a", &["b"], None), app("b", &[], None), app("a", &[], None)];
    let mut g = ascii_dag::graph::Graph::new();
    g.add_node(1, " a ");
    g.add_node(2, " b ");
    g.add_node(3, " a ");
    g.add_edge(3, 2, None);
    assert_eq!(dependency_dag(&apps), g.render());
    assert_eq!(dependency_dag(&[]), ascii_dag::graph::Graph::new().render());
}

#[test]
fn list_has_one_line_per_application() {
    let apps = vec![app("quiz", &[], None), app("persona", &[], None)];
    let list = list_summaries(&apps, &vec![Some(s("Running")), None]);
    assert_eq!(list.len(), 2);
    assert_eq!(list[0].id, "quiz");
    assert_eq!(list[0].status, "running");
    assert_eq!(list[1].name, "persona");
    assert_eq!(list[1].status, "stopped");
}

#[test]
fn duplicate_stack_names_are_detected() {
    let mut a = app("quiz", &[], None);
    assert!(a.has_distinct_stacks());
    a.stacks.push((s("web"), Stack { compose: s("w.yml"), health: None }));
    assert!(a.has_distinct_stacks());
    a.stacks.push((s("main"), Stack { compose: s("m.yml"), health: None }));
    assert!(!a.has_distinct_stacks());
}

#[test]
fn a_failed_wake_is_refused_with_503() {
    assert_eq!(
        after_wake("quiz", "http://localhost:8000/x", Some(Err(s("docker down")))),
        RouteStep::Refuse(Answer { status: 503, body: s("pulse proxy: could not start 'quiz': docker down") })
    );
    assert_eq!(
        after_wake("quiz", "http://localhost:8000/x", Some(Ok(()))),
        RouteStep::Forward { app: s("quiz"), target: s("http://localhost:8000/x") }
    );
    assert_eq!(
        after_wake("quiz", "http://localhost:8000/x", None),
        RouteStep::Forward { app: s("quiz"), target: s("http://localhost:8000/x") }
    );
}

#[test]
fn upstream_failures_answer_502() {
    let a = upstream_answer(UpstreamFailure::BadUri, "bad");
    assert_eq!((a.status, a.body.as_str()), (502, "invalid upstream URI: bad"));
    assert_eq!(upstream_answer(UpstreamFailure::Http, "reset").body, "upstream HTTP error: reset");
    assert_eq!(upstream_answer(UpstreamFailure::BadWsUri, "x").body, "invalid upstream WS URI: x");
    assert_eq!(upstream_answer(UpstreamFailure::WsConnect, "y").body, "upstream WS connect error: y");
    assert_eq!(
        upstream_answer(UpstreamFailure::NotUpgraded, "200 OK").body,
        "backend did not upgrade WebSocket (got 200 OK)"
    );
    assert!(upgraded(101));
    assert!(!upgraded(200));
}

#[test]
fn unknown_apps_are_not_found() {
    let m = LifeCycleManager::new(vec![app("quiz", &[], None), app("persona", &[], None)]);
    assert_eq!(m.lookup("persona"), Ok(1));
    let e = m.lookup("ghost").unwrap_err();
    assert_eq!(e, LifecycleError::AppNotFound);
    assert!(e.message().contains("app not found"));
    let d = m.app_detail("quiz", &Some(s("Running"))).unwrap();
    assert_eq!(d.name, "quiz");
    assert_eq!(d.status, "running");
    assert_eq!(m.app_detail("ghost", &None).unwrap_err().message(), "app not found");
}
