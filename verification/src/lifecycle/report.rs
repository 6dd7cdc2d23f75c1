//! What the lifecycle manager reports about applications.

use vstd::prelude::*;
use vstd::string::*;
use crate::domain::{Application, ApplicationView, StackView, names_view, opt_view};
use crate::lifecycle::job::{ErrorView, LifecycleError};
use crate::lifecycle::manager::{LifeCycleManager, find_in, lemma_find_in, normalize_status, status_class};
use crate::text::{join, push_str, seq_join};

verus! {

/// One line of the application list.
#[derive(Clone, Debug, PartialEq, Eq)]
pub struct AppSummary {
    pub id: String,
    pub name: String,
    pub status: String,
    pub description: Option<String>,
}

/// One stack in an application's detail.
#[derive(Clone, Debug, PartialEq, Eq)]
pub struct StackInfo {
    pub name: String,
    pub compose: String,
    pub health_url: Option<String>,
}

/// The detail of one application.
#[derive(Clone, Debug, PartialEq, Eq)]
pub struct AppDetail {
    pub id: String,
    pub name: String,
    pub status: String,
    pub routes: Vec<String>,
    pub dependencies: Vec<String>,
    pub idle_timeout: Option<String>,
    pub stacks: Vec<StackInfo>,
}

/// The stored state text, an absent one counting as `"stopped"`.
pub open spec fn stored_text(raw: Option<Seq<char>>) -> Seq<char> {
    match raw {
        Some(s) => s,
        None => "stopped"@,
    }
}

/// `"Routes: "` and the routes joined with `", "`; none when there are no routes.
pub open spec fn routes_description(routes: Seq<Seq<char>>) -> Option<Seq<char>> {
    if routes.len() == 0 {
        None
    } else {
        Some("Routes: "@ + seq_join(routes, ", "@))
    }
}

fn stored_or_stopped(raw: &Option<String>) -> (s: String)
    ensures
        s@ == stored_text(opt_view(*raw)),
{
    match raw {
        Some(s) => s.clone(),
        None => String::from_str("stopped"),
    }
}

fn clone_names(v: &Vec<String>) -> (r: Vec<String>)
    ensures
        names_view(r@) == names_view(v@),
{
    let mut r: Vec<String> = Vec::new();
    let n = v.len();
    for i in 0..n
        invariant
            n == v@.len(),
            r@.len() == i,
            forall|j: int| 0 <= j < i ==> (#[trigger] r@[j])@ == v@[j]@,
    {
        r.push(v[i].clone());
    }
    assert(names_view(r@) =~= names_view(v@));
    r
}

fn clone_opt(o: &Option<String>) -> (r: Option<String>)
    ensures
        opt_view(r) == opt_view(*o),
{
    match o {
        Some(s) => Some(s.clone()),
        None => None,
    }
}

impl AppSummary {
    /// `self` is the list line of `app` whose stored state text is `raw`.
    pub open spec fn describes(self, app: ApplicationView, raw: Option<Seq<char>>) -> bool {
        &&& self.id@ == app.name
        &&& self.name@ == app.name
        &&& self.status@ == status_class(stored_text(raw))
        &&& opt_view(self.description) == routes_description(app.routes)
    }

    /// The list line of `app`, given its stored state text (`None` when there
    /// is none or it could not be read).
    pub fn of(app: &Application, raw: &Option<String>) -> (s: AppSummary)
        ensures
            s.id@ == app.name@,
            s.name@ == app.name@,
            s.status@ == status_class(stored_text(opt_view(*raw))),
            opt_view(s.description) == routes_description(app@.routes),
            s.describes(app@, opt_view(*raw)),
    {
        let text = stored_or_stopped(raw);
        let description = if app.routes.len() == 0 {
            None
        } else {
            let mut d = String::from_str("Routes: ");
            let joined = join(&app.routes, ", ");
            push_str(&mut d, joined.as_str());
            Some(d)
        };
        AppSummary {
            id: app.name.clone(),
            name: app.name.clone(),
            status: normalize_status(text.as_str()),
            description,
        }
    }
}

/// The application list: one line per application, in registry order,
/// each with the stored state text read for it (`states[i]` for `apps[i]`).
pub fn list_summaries(apps: &[Application], states: &Vec<Option<String>>) -> (r: Vec<AppSummary>)
    requires
        states@.len() == apps@.len(),
    ensures
        r@.len() == apps@.len(),
        forall|i: int| 0 <= i < apps@.len() ==> (#[trigger] r@[i]).describes(apps@[i]@, opt_view(states@[i])),
{
    let mut r: Vec<AppSummary> = Vec::new();
    let n = apps.len();
    for i in 0..n
        invariant
            n == apps@.len(),
            states@.len() == n,
            r@.len() == i,
            forall|k: int| 0 <= k < i ==> (#[trigger] r@[k]).describes(apps@[k]@, opt_view(states@[k])),
    {
        r.push(AppSummary::of(&apps[i], &states[i]));
    }
    r
}

impl AppDetail {
    /// `self` is the detail of `app` whose stored state text is `raw`.
    pub open spec fn describes(self, app: ApplicationView, raw: Option<Seq<char>>) -> bool {
        &&& self.id@ == app.name
        &&& self.name@ == app.name
        &&& self.status@ == status_class(stored_text(raw))
        &&& names_view(self.routes@) == app.routes
        &&& names_view(self.dependencies@) == app.deps()
        &&& opt_view(self.idle_timeout) == app.idle_timeout
        &&& self.stacks@.len() == app.stacks.len()
        &&& forall|i: int| 0 <= i < self.stacks@.len() ==> {
            &&& (#[trigger] self.stacks@[i]).name@ == app.stacks[i].name
            &&& self.stacks@[i].compose@ == app.stacks[i].compose
            &&& opt_view(self.stacks@[i].health_url) == app.stacks[i].health
        }
    }

    /// The detail of `app`, given its stored state text.
    pub fn of(app: &Application, raw: &Option<String>) -> (d: AppDetail)
        ensures
            d.describes(app@, opt_view(*raw)),
            d.id@ == app.name@,
            d.name@ == app.name@,
            d.status@ == status_class(stored_text(opt_view(*raw))),
            names_view(d.routes@) == app@.routes,
            names_view(d.dependencies@) == app@.deps(),
            opt_view(d.idle_timeout) == app@.idle_timeout,
            d.stacks@.len() == app@.stacks.len(),
            forall|i: int| 0 <= i < d.stacks@.len() ==> {
                &&& (#[trigger] d.stacks@[i]).name@ == app@.stacks[i].name
                &&& d.stacks@[i].compose@ == app@.stacks[i].compose
                &&& opt_view(d.stacks@[i].health_url) == app@.stacks[i].health
            },
    {
        let text = stored_or_stopped(raw);
        let ghost av = app@;
        let mut stacks: Vec<StackInfo> = Vec::new();
        let n = app.stacks.len();
        for i in 0..n
            invariant
                n == app.stacks@.len(),
                av == app@,
                stacks@.len() == i,
                forall|j: int| 0 <= j < i ==> {
                    &&& (#[trigger] stacks@[j]).name@ == av.stacks[j].name
                    &&& stacks@[j].compose@ == av.stacks[j].compose
                    &&& opt_view(stacks@[j].health_url) == av.stacks[j].health
                },
        {
            let (sname, st) = &app.stacks[i];
            stacks.push(StackInfo { name: sname.clone(), compose: st.compose.clone(), health_url: clone_opt(&st.health) });
        }
        let dependencies = match &app.dependencies {
            Some(d) => clone_names(d),
            None => Vec::new(),
        };
        assert(names_view(dependencies@) =~= av.deps());
        AppDetail {
            id: app.name.clone(),
            name: app.name.clone(),
            status: normalize_status(text.as_str()),
            routes: clone_names(&app.routes),
            dependencies,
            idle_timeout: clone_opt(&app.idle_timeout),
            stacks,
        }
    }
}

/// The lines of a status report: each stack's status, then the routes, the
/// idle timeout and the dependencies when the manifest gives them.
pub open spec fn status_lines(a: ApplicationView, stack_statuses: Seq<Seq<char>>) -> Seq<Seq<char>> {
    stack_statuses
        + (if a.routes.len() == 0 { Seq::empty() } else { seq!["routes: "@ + seq_join(a.routes, ", "@)] })
        + (match a.idle_timeout {
            Some(t) => seq!["idle_timeout: "@ + t],
            None => Seq::empty(),
        })
        + (match a.dependencies {
            Some(d) => seq!["dependencies: "@ + seq_join(d, ", "@)],
            None => Seq::empty(),
        })
}

/// The status report of `app`: its lines (see `status_lines`) joined with newlines.
pub fn status_report(app: &Application, stack_statuses: Vec<String>) -> (r: String)
    ensures
        r@ == seq_join(status_lines(app@, names_view(stack_statuses@)), "\n"@),
{
    let ghost av = app@;
    let mut lines = stack_statuses;
    let ghost l0 = names_view(lines@);
    if app.routes.len() > 0 {
        let mut s = String::from_str("routes: ");
        let j = join(&app.routes, ", ");
        push_str(&mut s, j.as_str());
        lines.push(s);
    }
    let ghost l1 = names_view(lines@);
    assert(l1 =~= l0 + (if av.routes.len() == 0 { Seq::<Seq<char>>::empty() } else { seq!["routes: "@ + seq_join(av.routes, ", "@)] }));
    match &app.idle_timeout {
        Some(t) => {
            let mut s = String::from_str("idle_timeout: ");
            push_str(&mut s, t.as_str());
            lines.push(s);
        },
        None => {},
    }
    let ghost l2 = names_view(lines@);
    assert(l2 =~= l1 + (match av.idle_timeout {
        Some(t) => seq!["idle_timeout: "@ + t],
        None => Seq::<Seq<char>>::empty(),
    }));
    match &app.dependencies {
        Some(d) => {
            let mut s = String::from_str("dependencies: ");
            let j = join(d, ", ");
            push_str(&mut s, j.as_str());
            lines.push(s);
        },
        None => {},
    }
    assert(names_view(lines@) =~= l2 + (match av.dependencies {
        Some(d) => seq!["dependencies: "@ + seq_join(d, ", "@)],
        None => Seq::<Seq<char>>::empty(),
    }));
    join(&lines, "\n")
}

/// The message of an error, as the operations report it.
pub open spec fn error_text(e: ErrorView) -> Seq<char> {
    match e {
        ErrorView::LockNotFound => "lock not found for app"@,
        ErrorView::AppNotFound => "app not found"@,
        ErrorView::Failed(m) => m,
        ErrorView::DependencyUnhealthy { dependency, reason } => "dependency "@ + dependency
            + " failed health check: "@ + reason,
    }
}

impl LifeCycleManager {
    /// The index of the first application named `name`, or `AppNotFound`
    /// (whose message is "app not found") when there is none.
    pub fn lookup(&self, name: &str) -> (r: Result<usize, LifecycleError>)
        ensures
            match find_in(self@, name@) {
                Some(k) => r matches Ok(i) && i as int == k,
                None => r matches Err(e) && e@ == ErrorView::AppNotFound,
            },
    {
        proof {
            lemma_find_in(self@, name@);
        }
        match self.find_app(name) {
            Some(k) => Ok(k),
            None => Err(LifecycleError::AppNotFound),
        }
    }

    /// The detail of the first application named `name`, given its stored
    /// state text, or `AppNotFound` when there is none.
    pub fn app_detail(&self, name: &str, raw: &Option<String>) -> (r: Result<AppDetail, LifecycleError>)
        ensures
            match find_in(self@, name@) {
                Some(k) => r matches Ok(d) && d.describes(self@[k], opt_view(*raw)),
                None => r matches Err(e) && e@ == ErrorView::AppNotFound,
            },
    {
        proof {
            lemma_find_in(self@, name@);
        }
        match self.lookup(name) {
            Ok(k) => {
                assert(find_in(self@, name@) == Some(k as int));
                assert(self@[k as int] == self.apps@[k as int]@);
                let d = AppDetail::of(&self.apps[k], raw);
                assert(d.describes(self@[k as int], opt_view(*raw)));
                Ok(d)
            },
            Err(e) => Err(e),
        }
    }
}

impl LifecycleError {
    /// The error's message (see `error_text`).
    pub fn message(&self) -> (s: String)
        ensures
            s@ == error_text(self@),
    {
        match self {
            LifecycleError::LockNotFound => String::from_str("lock not found for app"),
            LifecycleError::AppNotFound => String::from_str("app not found"),
            LifecycleError::Failed(m) => m.clone(),
            LifecycleError::DependencyUnhealthy { dependency, reason } => {
                let mut s = String::from_str("dependency ");
                push_str(&mut s, dependency.as_str());
                push_str(&mut s, " failed health check: ");
                push_str(&mut s, reason.as_str());
                s
            },
        }
    }
}

/// The lines of one application in the dependency tree: its name, one line
/// per dependency (the last drawn as the end of the branch), or a single
/// "no dependencies" line, then an empty line.
pub open spec fn tree_lines(a: ApplicationView) -> Seq<Seq<char>> {
    seq!["📦 "@ + a.name] + (if a.deps().len() == 0 {
        seq![" └─ (no dependencies)"@]
    } else {
        Seq::new(
            a.deps().len(),
            |i: int|
                (if i == a.deps().len() - 1 {
                    " └─"@
                } else {
                    " ├─"@
                }) + " depends on: "@ + a.deps()[i],
        )
    }) + seq![Seq::<char>::empty()]
}

/// The dependency tree of the registry, one line per element: a heading,
/// then each application's lines (see `tree_lines`) in registry order.
pub open spec fn tree_text(apps: Seq<ApplicationView>) -> Seq<Seq<char>>
    decreases apps.len(),
{
    if apps.len() == 0 {
        seq!["Pulse Applications Dependency Tree:"@]
    } else {
        tree_text(apps.drop_last()) + tree_lines(apps.last())
    }
}

fn push_line(lines: &mut Vec<String>, parts: &[&str])
    ensures
        final(lines)@.map_values(|s: String| s@) == old(lines)@.map_values(|s: String| s@).push(
            parts@.map_values(|p: &str| p@).fold_left(Seq::<char>::empty(), |acc: Seq<char>, p: Seq<char>| acc + p),
        ),
{
    let mut s = String::new();
    let n = parts.len();
    for i in 0..n
        invariant
            n == parts@.len(),
            s@ == parts@.map_values(|p: &str| p@).take(i as int).fold_left(Seq::<char>::empty(), |acc: Seq<char>, p: Seq<char>| acc + p),
    {
        let ghost pv = parts@.map_values(|p: &str| p@);
        assert(pv.take(i + 1).drop_last() =~= pv.take(i as int));
        push_str(&mut s, parts[i]);
    }
    assert(parts@.map_values(|p: &str| p@).take(n as int) =~= parts@.map_values(|p: &str| p@));
    let ghost before = lines@.map_values(|s: String| s@);
    lines.push(s);
    assert(lines@.map_values(|s: String| s@) =~= before.push(s@));
}

/// The dependency tree of the applications (see `tree_text`).
pub fn dependency_tree(apps: &[Application]) -> (lines: Vec<String>)
    ensures
        lines@.map_values(|s: String| s@) == tree_text(apps@.map_values(|a: Application| a@)),
{
    let ghost av = apps@.map_values(|a: Application| a@);
    let mut lines: Vec<String> = Vec::new();
    lines.push(String::from_str("Pulse Applications Dependency Tree:"));
    assert(lines@.map_values(|s: String| s@) =~= tree_text(av.take(0)));
    let n = apps.len();
    for i in 0..n
        invariant
            n == apps@.len(),
            av == apps@.map_values(|a: Application| a@),
            lines@.map_values(|s: String| s@) == tree_text(av.take(i as int)),
    {
        let a = &apps[i];
        let ghost v = a@;
        assert(av[i as int] == v);
        assert(av.take(i + 1).drop_last() =~= av.take(i as int));
        let ghost start = lines@.map_values(|s: String| s@);
        let head: [&str; 2] = ["📦 ", a.name.as_str()];
        push_line(&mut lines, &head);
        assert(head@.map_values(|p: &str| p@).fold_left(Seq::<char>::empty(), |acc: Seq<char>, p: Seq<char>| acc + p) =~= "📦 "@ + v.name) by {
            let hv = head@.map_values(|p: &str| p@);
            assert(hv =~= seq!["📦 "@, v.name]);
            reveal_with_fuel(Seq::fold_left, 3);
            assert(hv.drop_last() =~= seq!["📦 "@]);
            assert(hv.drop_last().drop_last() =~= Seq::<Seq<char>>::empty());
        }
        let empty: Vec<String> = Vec::new();
        let deps: &Vec<String> = match &a.dependencies {
            Some(d) => d,
            None => &empty,
        };
        assert(names_view(deps@) =~= v.deps());
        let ghost mid = lines@.map_values(|s: String| s@);
        let m = deps.len();
        if m == 0 {
            let single: [&str; 1] = [" └─ (no dependencies)"];
            push_line(&mut lines, &single);
            assert(single@.map_values(|p: &str| p@).fold_left(Seq::<char>::empty(), |acc: Seq<char>, p: Seq<char>| acc + p) =~= " └─ (no dependencies)"@) by {
                let sv = single@.map_values(|p: &str| p@);
                assert(sv =~= seq![" └─ (no dependencies)"@]);
                reveal_with_fuel(Seq::fold_left, 2);
                assert(sv.drop_last() =~= Seq::<Seq<char>>::empty());
            }
        } else {
            for j in 0..m
                invariant
                    m == deps@.len(),
                    m > 0,
                    names_view(deps@) == v.deps(),
                    lines@.map_values(|s: String| s@) == mid + Seq::new(
                        j as nat,
                        |t: int|
                            (if t == v.deps().len() - 1 {
                                " └─"@
                            } else {
                                " ├─"@
                            }) + " depends on: "@ + v.deps()[t],
                    ),
            {
                let ghost before = lines@.map_values(|s: String| s@);
                let prefix = if j == m - 1 {
                    " └─"
                } else {
                    " ├─"
                };
                let parts: [&str; 3] = [prefix, " depends on: ", deps[j].as_str()];
                push_line(&mut lines, &parts);
                assert(v.deps()[j as int] == deps@[j as int]@);
                assert(parts@.map_values(|p: &str| p@).fold_left(Seq::<char>::empty(), |acc: Seq<char>, p: Seq<char>| acc + p)
                    =~= prefix@ + " depends on: "@ + deps@[j as int]@) by {
                    let pv = parts@.map_values(|p: &str| p@);
                    assert(pv =~= seq![prefix@, " depends on: "@, deps@[j as int]@]);
                    reveal_with_fuel(Seq::fold_left, 4);
                    assert(pv.drop_last() =~= seq![prefix@, " depends on: "@]);
                    assert(pv.drop_last().drop_last() =~= seq![prefix@]);
                    assert(pv.drop_last().drop_last().drop_last() =~= Seq::<Seq<char>>::empty());
                }
                assert(lines@.map_values(|s: String| s@) =~= mid + Seq::new(
                    (j + 1) as nat,
                    |t: int|
                        (if t == v.deps().len() - 1 {
                            " └─"@
                        } else {
                            " ├─"@
                        }) + " depends on: "@ + v.deps()[t],
                ));
            }
        }
        let ghost after = lines@.map_values(|s: String| s@);
        lines.push(String::new());
        assert(lines@.map_values(|s: String| s@) =~= after.push(Seq::<char>::empty()));
        assert(lines@.map_values(|s: String| s@) =~= tree_text(av.take(i + 1)));
    }
    assert(av.take(n as int) =~= av);
    lines
}

} // verus!
