//! Boot reconciliation: applications recorded as running or starting whose
//! stacks show nothing running are marked `Stopped`.

use vstd::prelude::*;
use vstd::string::*;
use crate::domain::{ApplicationView, State, opt_view};
use crate::domain::state_label;
use crate::lifecycle::manager::{LifeCycleManager, law_state_round_trip, normalize_status, status_class};
use crate::lifecycle::report::stored_text;
use crate::text::{chars_of, contains_chars, contains_seq, str_eq};

verus! {

/// `str::to_lowercase`: the Unicode lower-case mapping of a text.
pub uninterp spec fn unicode_lowercase(s: Seq<char>) -> Seq<char>;

/// `str::to_lowercase`, named by `unicode_lowercase` (the Unicode case
/// tables are not stated).
#[verifier::external_body]
fn to_lowercase(s: &str) -> (r: String)
    ensures
        r@ == unicode_lowercase(s@),
{
    s.to_lowercase()
}

/// `docker compose ps` output that shows a running container: in lower
/// case it mentions `running` or `up`.
pub open spec fn shows_running(output: Seq<char>) -> bool {
    contains_seq(unicode_lowercase(output), "running"@) || contains_seq(unicode_lowercase(output), "up"@)
}

/// Whether `docker compose ps` output shows a running container (see `shows_running`).
pub fn stack_shows_running(output: &str) -> (r: bool)
    ensures
        r == shows_running(output@),
{
    let l = chars_of(to_lowercase(output).as_str());
    contains_chars(&l, &chars_of("running")) || contains_chars(&l, &chars_of("up"))
}

/// A stored state that claims the application is up: its status class is
/// `running` or `starting`.
pub open spec fn claims_up(raw: Option<Seq<char>>) -> bool {
    status_class(stored_text(raw)) == "running"@ || status_class(stored_text(raw)) == "starting"@
}

/// What the boot pass asks for next.
#[derive(Clone, Debug, PartialEq, Eq)]
pub enum BootAction {
    /// Read the stored state of an application.
    ReadState { app: String },
    /// Run `docker compose ps` on a compose file.
    QueryStack { compose: String },
    /// Store `Stopped` for an application (a failure is ignored).
    MarkStopped { app: String },
    /// The pass is over.
    Done,
}

/// The outcome of the last boot action.
#[derive(Clone, Debug, PartialEq, Eq)]
pub enum BootEvent {
    /// The pass begins, or the last action needs no answer.
    Next,
    /// A state read gave this text (`None`: no record, or the read failed).
    StateLoaded(Option<String>),
    /// `docker compose ps` printed this (`None`: it failed or timed out).
    StackStatus(Option<String>),
}

#[derive(Clone, Copy, Debug, PartialEq, Eq, Structural)]
pub enum BootPhase {
    Begin,
    Reading { app: usize },
    Querying { app: usize, stack: usize },
    Marking { app: usize },
    Finished,
}

pub enum BootActionView {
    ReadState { app: Seq<char> },
    QueryStack { compose: Seq<char> },
    MarkStopped { app: Seq<char> },
    Done,
}

pub enum BootEventView {
    Next,
    StateLoaded(Option<Seq<char>>),
    StackStatus(Option<Seq<char>>),
}

impl View for BootAction {
    type V = BootActionView;

    open spec fn view(&self) -> BootActionView {
        match self {
            BootAction::ReadState { app } => BootActionView::ReadState { app: app@ },
            BootAction::QueryStack { compose } => BootActionView::QueryStack { compose: compose@ },
            BootAction::MarkStopped { app } => BootActionView::MarkStopped { app: app@ },
            BootAction::Done => BootActionView::Done,
        }
    }
}

impl View for BootEvent {
    type V = BootEventView;

    open spec fn view(&self) -> BootEventView {
        match self {
            BootEvent::Next => BootEventView::Next,
            BootEvent::StateLoaded(s) => BootEventView::StateLoaded(opt_view(*s)),
            BootEvent::StackStatus(s) => BootEventView::StackStatus(opt_view(*s)),
        }
    }
}

/// Moving on to application `k`: read its state, or finish after the last.
pub open spec fn boot_visit(apps: Seq<ApplicationView>, k: int) -> (BootPhase, BootActionView) {
    if k < apps.len() {
        (BootPhase::Reading { app: k as usize }, BootActionView::ReadState { app: apps[k].name })
    } else {
        (BootPhase::Finished, BootActionView::Done)
    }
}

pub open spec fn loaded_state(e: BootEventView) -> Option<Seq<char>> {
    match e {
        BootEventView::StateLoaded(s) => s,
        _ => None,
    }
}

/// One transition of the boot pass: applications are taken in registry
/// order; one whose stored state claims it is up has its stacks queried in
/// order until one shows a running container, and is marked `Stopped` when
/// none does.
pub open spec fn boot_next(apps: Seq<ApplicationView>, phase: BootPhase, e: BootEventView) -> (BootPhase, BootActionView) {
    match phase {
        BootPhase::Begin => boot_visit(apps, 0),
        BootPhase::Reading { app } => {
            let i = app as int;
            if claims_up(loaded_state(e)) {
                if apps[i].stacks.len() > 0 {
                    (BootPhase::Querying { app, stack: 0 }, BootActionView::QueryStack { compose: apps[i].stacks[0].compose })
                } else {
                    (BootPhase::Marking { app }, BootActionView::MarkStopped { app: apps[i].name })
                }
            } else {
                boot_visit(apps, i + 1)
            }
        },
        BootPhase::Querying { app, stack } => {
            let i = app as int;
            let j = stack as int;
            if e matches BootEventView::StackStatus(Some(out)) && shows_running(out) {
                boot_visit(apps, i + 1)
            } else if j + 1 < apps[i].stacks.len() {
                (BootPhase::Querying { app, stack: (j + 1) as usize }, BootActionView::QueryStack { compose: apps[i].stacks[j + 1].compose })
            } else {
                (BootPhase::Marking { app }, BootActionView::MarkStopped { app: apps[i].name })
            }
        },
        BootPhase::Marking { app } => boot_visit(apps, app as int + 1),
        BootPhase::Finished => (BootPhase::Finished, BootActionView::Done),
    }
}

/// The step that checks application `app` against docker: query its first
/// stack, or mark it `Stopped` at once when it has no stack.
pub open spec fn checks_app(apps: Seq<ApplicationView>, app: usize, r: (BootPhase, BootActionView)) -> bool {
    if apps[app as int].stacks.len() > 0 {
        r == (BootPhase::Querying { app, stack: 0 }, BootActionView::QueryStack { compose: apps[app as int].stacks[0].compose })
    } else {
        r == (BootPhase::Marking { app }, BootActionView::MarkStopped { app: apps[app as int].name })
    }
}

/// Law (boot checks every application recorded as up): after reading the
/// stored state of application `app`, the boot pass checks it against docker
/// exactly when the state's status class is `running` or `starting`;
/// otherwise it goes on to the next application.
pub proof fn law_boot_checks_up(apps: Seq<ApplicationView>, app: usize, raw: Option<Seq<char>>)
    requires
        app < apps.len(),
    ensures
        ({
            let r = boot_next(apps, BootPhase::Reading { app }, BootEventView::StateLoaded(raw));
            let c = status_class(stored_text(raw));
            &&& (c == "running"@ || c == "starting"@) ==> checks_app(apps, app, r)
            &&& !(c == "running"@ || c == "starting"@) ==> r == boot_visit(apps, app + 1)
        }),
{
}

/// Law (boot checks every state that claims the application is up): a
/// stored `Starting`, `HealthCheck`, `Stopping` or `Running` (as the
/// lifecycle writes them) is checked against docker; a stored `Stopped`,
/// `Idle` or `Failed`, or no record at all, is left as it is.
pub proof fn law_boot_checks_up_states(apps: Seq<ApplicationView>, app: usize, s: State)
    requires
        app < apps.len(),
    ensures
        ({
            let r = boot_next(apps, BootPhase::Reading { app }, BootEventView::StateLoaded(Some(state_label(s))));
            &&& (s == State::Starting || s == State::HealthCheck || s == State::Stopping || s == State::Running)
                ==> checks_app(apps, app, r)
            &&& (s == State::Stopped || s == State::Idle || s == State::Failed) ==> r == boot_visit(apps, app + 1)
        }),
        boot_next(apps, BootPhase::Reading { app }, BootEventView::StateLoaded(None)) == boot_visit(apps, app + 1),
{
    law_state_round_trip(s);
    reveal_strlit("stopped");
    reveal_strlit("starting");
    reveal_strlit("healthcheck");
    reveal_strlit("stopping");
    reveal_strlit("running");
    reveal_strlit("failed");
    let l = crate::text::ascii_lower("stopped"@);
    assert(l =~= "stopped"@);
    assert(l[2] != "starting"@[2]);
    assert(l[0] != "running"@[0]);
    assert(l.len() != "healthcheck"@.len() && l.len() != "stopping"@.len() && l.len() != "failed"@.len());
    assert(status_class(stored_text(None)) == "stopped"@);
    reveal_strlit("error");
    assert("error"@ != "running"@ && "error"@ != "starting"@) by {
        assert("error"@[0] != "running"@[0]);
        assert("error"@[0] != "starting"@[0]);
    }
    assert("stopped"@ != "running"@ && "stopped"@ != "starting"@) by {
        assert("stopped"@[0] != "running"@[0]);
        assert("stopped"@[2] != "starting"@[2]);
    }
    assert(stored_text(Some(state_label(s))) == state_label(s));
}

impl LifeCycleManager {
    /// The phases the boot pass can be in for this registry.
    pub open spec fn boot_phase_ok(&self, phase: BootPhase) -> bool {
        match phase {
            BootPhase::Reading { app } => app < self.apps@.len(),
            BootPhase::Querying { app, stack } => app < self.apps@.len() && stack < self.apps@[app as int].stacks@.len(),
            BootPhase::Marking { app } => app < self.apps@.len(),
            _ => true,
        }
    }

    fn boot_visit(&self, k: usize) -> (r: (BootPhase, BootAction))
        requires
            k <= self.apps@.len(),
        ensures
            self.boot_phase_ok(r.0),
            (r.0, r.1@) == boot_visit(self@, k as int),
    {
        if k < self.apps.len() {
            (BootPhase::Reading { app: k }, BootAction::ReadState { app: self.apps[k].name.clone() })
        } else {
            (BootPhase::Finished, BootAction::Done)
        }
    }

    /// One step of the boot pass (see `boot_next`).
    pub fn boot_step(&self, phase: BootPhase, event: BootEvent) -> (r: (BootPhase, BootAction))
        requires
            self.boot_phase_ok(phase),
        ensures
            self.boot_phase_ok(r.0),
            (r.0, r.1@) == boot_next(self@, phase, event@),
    {
        assert(self.apps.len() == self.apps@.len());
        match phase {
            BootPhase::Begin => self.boot_visit(0),
            BootPhase::Reading { app } => {
                let raw = match &event {
                    BootEvent::StateLoaded(Some(s)) => s.clone(),
                    _ => String::from_str("stopped"),
                };
                assert(raw@ == stored_text(loaded_state(event@)));
                let status = normalize_status(raw.as_str());
                if str_eq(status.as_str(), "running") || str_eq(status.as_str(), "starting") {
                    let a = &self.apps[app];
                    if a.stacks.len() > 0 {
                        (BootPhase::Querying { app, stack: 0 }, BootAction::QueryStack { compose: a.stacks[0].1.compose.clone() })
                    } else {
                        (BootPhase::Marking { app }, BootAction::MarkStopped { app: a.name.clone() })
                    }
                } else {
                    self.boot_visit(app + 1)
                }
            },
            BootPhase::Querying { app, stack } => {
                let running = match &event {
                    BootEvent::StackStatus(Some(out)) => stack_shows_running(out.as_str()),
                    _ => false,
                };
                let a = &self.apps[app];
                if running {
                    self.boot_visit(app + 1)
                } else if stack < a.stacks.len() - 1 {
                    (BootPhase::Querying { app, stack: stack + 1 }, BootAction::QueryStack { compose: a.stacks[stack + 1].1.compose.clone() })
                } else {
                    (BootPhase::Marking { app }, BootAction::MarkStopped { app: a.name.clone() })
                }
            },
            BootPhase::Marking { app } => self.boot_visit(app + 1),
            BootPhase::Finished => (BootPhase::Finished, BootAction::Done),
        }
    }
}

} // verus!
