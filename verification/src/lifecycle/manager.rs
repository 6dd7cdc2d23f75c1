//! Status reporting and the registry of applications.

use vstd::prelude::*;
use vstd::string::*;
use crate::text::{ascii_lower, chars_are, chars_of, lower_chars, str_eq};
use crate::domain::{Application, ApplicationView, State, state_label};

verus! {

/// The status class that a stored state text falls in (compared without
/// regard to ASCII case): `"starting"`, `"running"`, `"stopped"` or `"error"`.
pub open spec fn status_class(raw: Seq<char>) -> Seq<char> {
    let l = ascii_lower(raw);
    if l == "starting"@ || l == "healthcheck"@ || l == "stopping"@ {
        "starting"@
    } else if l == "running"@ {
        "running"@
    } else if l == "failed"@ {
        "error"@
    } else {
        "stopped"@
    }
}

/// Maps a stored state text to the status shown to users.
pub fn normalize_status(raw: &str) -> (s: String)
    ensures
        s@ == status_class(raw@),
{
    let l = lower_chars(&chars_of(raw));
    if chars_are(&l, "starting") || chars_are(&l, "healthcheck") || chars_are(&l, "stopping") {
        String::from_str("starting")
    } else if chars_are(&l, "running") {
        String::from_str("running")
    } else if chars_are(&l, "failed") {
        String::from_str("error")
    } else {
        String::from_str("stopped")
    }
}


/// The registry of applications that the lifecycle decisions read.
pub struct LifeCycleManager {
    pub apps: Vec<Application>,
}

impl View for LifeCycleManager {
    type V = Seq<ApplicationView>;

    open spec fn view(&self) -> Seq<ApplicationView> {
        self.apps@.map_values(|a: Application| a@)
    }
}

/// The index of the first application named `name`.
pub open spec fn find_in(apps: Seq<ApplicationView>, name: Seq<char>) -> Option<int>
    decreases apps.len(),
{
    if apps.len() == 0 {
        None
    } else {
        match find_in(apps.drop_last(), name) {
            Some(i) => Some(i),
            None => if apps.last().name == name {
                Some(apps.len() - 1)
            } else {
                None
            },
        }
    }
}

pub open spec fn registered(apps: Seq<ApplicationView>, name: Seq<char>) -> bool {
    find_in(apps, name) is Some
}

/// The first application named `name` (meaningful when it is registered).
pub open spec fn app_named(apps: Seq<ApplicationView>, name: Seq<char>) -> ApplicationView {
    apps[find_in(apps, name)->0]
}

/// The dependencies declared by the application named `name`
/// (none when no application has that name).
pub open spec fn deps_of(apps: Seq<ApplicationView>, name: Seq<char>) -> Seq<Seq<char>> {
    if registered(apps, name) {
        app_named(apps, name).deps()
    } else {
        Seq::empty()
    }
}

pub proof fn lemma_find_in(apps: Seq<ApplicationView>, name: Seq<char>)
    ensures
        match find_in(apps, name) {
            Some(i) => 0 <= i < apps.len() && apps[i].name == name && forall|j: int|
                0 <= j < i ==> apps[j].name != name,
            None => forall|j: int| 0 <= j < apps.len() ==> apps[j].name != name,
        },
    decreases apps.len(),
{
    if apps.len() > 0 {
        let p = apps.drop_last();
        lemma_find_in(p, name);
        assert(forall|j: int| 0 <= j < p.len() ==> p[j] == apps[j]);
    }
}

impl LifeCycleManager {
    /// Every registered application names each of its stacks once.
    pub open spec fn wf(&self) -> bool {
        forall|i: int| 0 <= i < self@.len() ==> (#[trigger] self@[i]).stacks_distinct()
    }

    /// A registry over the given applications, each naming each of its
    /// stacks once.
    pub fn new(apps: Vec<Application>) -> (m: Self)
        requires
            forall|i: int| 0 <= i < apps@.len() ==> (#[trigger] apps@[i])@.stacks_distinct(),
        ensures
            m.apps@ == apps@,
            m.wf(),
    {
        LifeCycleManager { apps }
    }

    /// The registered applications.
    pub fn get_apps(&self) -> (r: &[Application])
        ensures
            r@ == self.apps@,
    {
        self.apps.as_slice()
    }

    /// The index of the first application named `name`, if any.
    pub fn find_app(&self, name: &str) -> (r: Option<usize>)
        ensures
            match r {
                Some(k) => find_in(self@, name@) == Some(k as int),
                None => find_in(self@, name@) is None,
            },
    {
        let n = self.apps.len();
        for i in 0..n
            invariant
                n == self.apps@.len(),
                find_in(self@.take(i as int), name@) is None,
        {
            proof {
                assert(self@.take(i + 1).drop_last() =~= self@.take(i as int));
            }
            if str_eq(self.apps[i].name.as_str(), name) {
                proof {
                    assert(find_in(self@.take(i + 1), name@) == Some(i as int));
                    lemma_find_prefix(self@, name@, i + 1);
                }
                return Some(i);
            }
        }
        assert(self@.take(n as int) =~= self@);
        None
    }
}

/// Once the first match lies in a prefix, it is the first match overall.
proof fn lemma_find_prefix(apps: Seq<ApplicationView>, name: Seq<char>, k: int)
    requires
        0 <= k <= apps.len(),
        find_in(apps.take(k), name) is Some,
    ensures
        find_in(apps, name) == find_in(apps.take(k), name),
    decreases apps.len() - k,
{
    if k < apps.len() {
        assert(apps.take(k + 1).drop_last() =~= apps.take(k));
        lemma_find_prefix(apps, name, k + 1);
    } else {
        assert(apps.take(k) =~= apps);
    }
}

/// Law (status classes): every stored state text falls in one of the
/// classes the dashboard shows: starting, running, stopped or error.
pub proof fn law_status_classes(raw: Seq<char>)
    ensures
        status_class(raw) == "starting"@ || status_class(raw) == "running"@ || status_class(raw) == "stopped"@
            || status_class(raw) == "error"@,
{
}

/// The dashboard class of each lifecycle state.
pub open spec fn state_class(s: State) -> Seq<char> {
    match s {
        State::Starting | State::HealthCheck | State::Stopping => "starting"@,
        State::Running => "running"@,
        State::Stopped | State::Idle => "stopped"@,
        State::Failed => "error"@,
    }
}

/// Law (stored states read back): the text stored for a state is read
/// back as that state's dashboard class.
pub proof fn law_state_round_trip(s: State)
    ensures
        status_class(state_label(s)) == state_class(s),
{
    reveal_strlit("Starting");
    reveal_strlit("Stopped");
    reveal_strlit("HealthCheck");
    reveal_strlit("Running");
    reveal_strlit("Idle");
    reveal_strlit("Stopping");
    reveal_strlit("Failed");
    reveal_strlit("starting");
    reveal_strlit("healthcheck");
    reveal_strlit("stopping");
    reveal_strlit("running");
    reveal_strlit("failed");
    let l = ascii_lower(state_label(s));
    match s {
        State::Starting => {
            assert(l =~= "starting"@);
        },
        State::Stopped => {
            assert(l.len() == 7 && l[2] == 'o');
            assert(l != "starting"@ && l != "healthcheck"@ && l != "stopping"@ && l != "running"@ && l != "failed"@);
        },
        State::HealthCheck => {
            assert(l =~= "healthcheck"@);
        },
        State::Running => {
            assert(l =~= "running"@);
        },
        State::Idle => {
            assert(l.len() == 4);
        },
        State::Stopping => {
            assert(l =~= "stopping"@);
        },
        State::Failed => {
            assert(l =~= "failed"@);
            assert(l != "starting"@ && l != "healthcheck"@ && l != "stopping"@ && l != "running"@);
        },
    }
}

} // verus!
