//! The start / stop / restart procedures as a state machine.
//!
//! A `Job` decides; its driver performs. Each call of `Job::step` takes the
//! outcome of the previous action (an `Event`) and returns the next
//! `Action`: take the application's lock, read or write a stored state,
//! start, stop or restart a compose stack, wait for a health URL, or finish
//! with a result.

use vstd::prelude::*;
use vstd::string::*;
use crate::domain::{Application, ApplicationView, State, StackView, opt_view, state_label};
use crate::lifecycle::graph::{dependency_order, dependents};
use crate::lifecycle::manager::{LifeCycleManager, app_named, find_in, lemma_find_in, normalize_status, registered, status_class, law_state_round_trip};
use crate::text::str_eq;

verus! {

/// Why a lifecycle operation failed.
#[derive(Clone, Debug, PartialEq, Eq)]
pub enum LifecycleError {
    /// No application of that name is registered (so it has no lock).
    LockNotFound,
    /// A dependency names no registered application.
    AppNotFound,
    /// An outside step (the state store, docker, a health check) failed with this message.
    Failed(String),
    /// A dependency did not become healthy.
    DependencyUnhealthy { dependency: String, reason: String },
}

/// The operation a job carries out.
#[derive(Clone, Copy, Debug, PartialEq, Eq, Structural)]
pub enum Operation {
    Start,
    Stop,
    Restart,
}

/// What the driver is asked to do next.
#[derive(Debug, PartialEq, Eq)]
pub enum Action {
    /// Take the application's lock and hold it until the job finishes.
    Lock { app: String },
    /// Read the stored state of an application.
    ReadState { app: String },
    /// Store a new state for an application.
    WriteState { app: String, state: State },
    /// `docker compose up` on a compose file.
    StartStack { compose: String },
    /// `docker compose down` on a compose file.
    StopStack { compose: String },
    /// Stop then start a compose file.
    RestartStack { compose: String },
    /// Poll a health URL until it answers with success, for at most
    /// `timeout_secs` seconds.
    AwaitHealthy { url: String, timeout_secs: u64 },
    /// The operation is over, with this result.
    Finish { result: Result<(), LifecycleError> },
}

/// The outcome of the last action.
#[derive(Clone, Debug, PartialEq, Eq)]
pub enum Event {
    /// It succeeded.
    Done,
    /// A state read gave this text (`None`: no record, or the read failed).
    StateLoaded(Option<String>),
    /// It failed with this message.
    Failed(String),
}

/// One step of a job's script.
#[derive(Debug, PartialEq, Eq)]
pub enum Step {
    /// An action whose failure ends the job with that failure.
    Run(Action),
    /// A stack start or restart of `app`; on failure `app` is marked `Failed` first.
    Launch { app: String, action: Action },
    /// A health wait; on failure the application is marked `Failed` first.
    Probe { app: String, url: String, dependency: bool },
}

pub enum Phase {
    Begin,
    Locking,
    ReadingOwn,
    Checking { consumers: Vec<String>, index: usize },
    Marking,
    Running { steps: Vec<Step>, index: usize },
    RecordingFailure { error: LifecycleError },
    Finished { result: Result<(), LifecycleError> },
}

/// A start, stop or restart of one application, in progress.
pub struct Job {
    pub op: Operation,
    pub app: String,
    pub phase: Phase,
}

// ---------------------------------------------------------------- views

pub enum ErrorView {
    LockNotFound,
    AppNotFound,
    Failed(Seq<char>),
    DependencyUnhealthy { dependency: Seq<char>, reason: Seq<char> },
}

pub enum ActionView {
    Lock { app: Seq<char> },
    ReadState { app: Seq<char> },
    WriteState { app: Seq<char>, state: State },
    StartStack { compose: Seq<char> },
    StopStack { compose: Seq<char> },
    RestartStack { compose: Seq<char> },
    AwaitHealthy { url: Seq<char>, timeout_secs: u64 },
    Finish { result: Result<(), ErrorView> },
}

pub enum EventView {
    Done,
    StateLoaded(Option<Seq<char>>),
    Failed(Seq<char>),
}

pub enum StepView {
    Run(ActionView),
    Launch { app: Seq<char>, action: ActionView },
    Probe { app: Seq<char>, url: Seq<char>, dependency: bool },
}

pub enum PhaseView {
    Begin,
    Locking,
    ReadingOwn,
    Checking { consumers: Seq<Seq<char>>, index: int },
    Marking,
    Running { steps: Seq<StepView>, index: int },
    RecordingFailure { error: ErrorView },
    Finished { result: Result<(), ErrorView> },
}

pub struct JobView {
    pub op: Operation,
    pub app: Seq<char>,
    pub phase: PhaseView,
}

impl View for LifecycleError {
    type V = ErrorView;

    open spec fn view(&self) -> ErrorView {
        match self {
            LifecycleError::LockNotFound => ErrorView::LockNotFound,
            LifecycleError::AppNotFound => ErrorView::AppNotFound,
            LifecycleError::Failed(m) => ErrorView::Failed(m@),
            LifecycleError::DependencyUnhealthy { dependency, reason } => ErrorView::DependencyUnhealthy {
                dependency: dependency@,
                reason: reason@,
            },
        }
    }
}

pub open spec fn result_view(r: Result<(), LifecycleError>) -> Result<(), ErrorView> {
    match r {
        Ok(()) => Ok(()),
        Err(e) => Err(e@),
    }
}

impl View for Action {
    type V = ActionView;

    open spec fn view(&self) -> ActionView {
        match self {
            Action::Lock { app } => ActionView::Lock { app: app@ },
            Action::ReadState { app } => ActionView::ReadState { app: app@ },
            Action::WriteState { app, state } => ActionView::WriteState { app: app@, state: *state },
            Action::StartStack { compose } => ActionView::StartStack { compose: compose@ },
            Action::StopStack { compose } => ActionView::StopStack { compose: compose@ },
            Action::RestartStack { compose } => ActionView::RestartStack { compose: compose@ },
            Action::AwaitHealthy { url, timeout_secs } => ActionView::AwaitHealthy { url: url@, timeout_secs: *timeout_secs },
            Action::Finish { result } => ActionView::Finish { result: result_view(*result) },
        }
    }
}

impl View for Event {
    type V = EventView;

    open spec fn view(&self) -> EventView {
        match self {
            Event::Done => EventView::Done,
            Event::StateLoaded(s) => EventView::StateLoaded(opt_view(*s)),
            Event::Failed(m) => EventView::Failed(m@),
        }
    }
}

impl View for Step {
    type V = StepView;

    open spec fn view(&self) -> StepView {
        match self {
            Step::Run(a) => StepView::Run(a@),
            Step::Launch { app, action } => StepView::Launch { app: app@, action: action@ },
            Step::Probe { app, url, dependency } => StepView::Probe { app: app@, url: url@, dependency: *dependency },
        }
    }
}

pub open spec fn steps_view(s: Seq<Step>) -> Seq<StepView> {
    s.map_values(|x: Step| x@)
}

impl View for Phase {
    type V = PhaseView;

    open spec fn view(&self) -> PhaseView {
        match self {
            Phase::Begin => PhaseView::Begin,
            Phase::Locking => PhaseView::Locking,
            Phase::ReadingOwn => PhaseView::ReadingOwn,
            Phase::Checking { consumers, index } => PhaseView::Checking {
                consumers: consumers@.map_values(|c: String| c@),
                index: *index as int,
            },
            Phase::Marking => PhaseView::Marking,
            Phase::Running { steps, index } => PhaseView::Running { steps: steps_view(steps@), index: *index as int },
            Phase::RecordingFailure { error } => PhaseView::RecordingFailure { error: error@ },
            Phase::Finished { result } => PhaseView::Finished { result: result_view(*result) },
        }
    }
}

impl View for Job {
    type V = JobView;

    open spec fn view(&self) -> JobView {
        JobView { op: self.op, app: self.app@, phase: self.phase@ }
    }
}

// ---------------------------------------------------------------- scripts

/// How long a health wait may take, in seconds.
pub const HEALTH_TIMEOUT_SECS: u64 = 60;

/// The steps that bring one application up: start (or, for a restart,
/// restart) each stack, mark it `HealthCheck`, wait for its health URL if it
/// has one, mark it `Running`. A stack that fails leaves it marked `Failed`.
pub open spec fn up_block(a: ApplicationView, dependency: bool, restart: bool) -> Seq<StepView> {
    a.stacks.map_values(|s: StackView| StepView::Launch {
        app: a.name,
        action: if restart {
            ActionView::RestartStack { compose: s.compose }
        } else {
            ActionView::StartStack { compose: s.compose }
        },
    })
        + seq![StepView::Run(ActionView::WriteState { app: a.name, state: State::HealthCheck })]
        + match a.backend {
            Some(u) => seq![StepView::Probe { app: a.name, url: u, dependency }],
            None => Seq::empty(),
        }
        + seq![StepView::Run(ActionView::WriteState { app: a.name, state: State::Running })]
}

/// The steps that start one application (see `up_block`).
pub open spec fn start_block(a: ApplicationView, dependency: bool) -> Seq<StepView> {
    up_block(a, dependency, false)
}

/// The start blocks of the dependencies, in the given order.
pub open spec fn dependency_blocks(apps: Seq<ApplicationView>, order: Seq<Seq<char>>) -> Seq<StepView>
    decreases order.len(),
{
    if order.len() == 0 {
        Seq::empty()
    } else {
        dependency_blocks(apps, order.drop_last()) + start_block(app_named(apps, order.last()), true)
    }
}

/// The steps of a stop: stop each stack, then mark the application `Idle`
/// when it has an idle timeout and `Stopped` otherwise.
pub open spec fn stop_script(a: ApplicationView) -> Seq<StepView> {
    a.stacks.map_values(|s: StackView| StepView::Run(ActionView::StopStack { compose: s.compose }))
        + seq![StepView::Run(ActionView::WriteState {
            app: a.name,
            state: if a.idle_timeout is Some { State::Idle } else { State::Stopped },
        })]
}

/// The steps of a restart: restart each stack, then, as a start does, mark
/// `HealthCheck`, wait for health and mark `Running`.
pub open spec fn restart_script(a: ApplicationView) -> Seq<StepView> {
    up_block(a, false, true)
}

/// The script an operation runs once its application is marked, or `None`
/// when a dependency has no application.
pub open spec fn job_script(apps: Seq<ApplicationView>, op: Operation, name: Seq<char>) -> Option<Seq<StepView>> {
    if !registered(apps, name) {
        None
    } else {
    match op {
        Operation::Start => match dependency_order(apps, name) {
            Some(order) => Some(dependency_blocks(apps, order) + start_block(app_named(apps, name), false)),
            None => None,
        },
        Operation::Stop => Some(stop_script(app_named(apps, name))),
        Operation::Restart => Some(restart_script(app_named(apps, name))),
    }
    }
}

pub open spec fn step_action(s: StepView) -> ActionView {
    match s {
        StepView::Run(a) => a,
        StepView::Launch { action, .. } => action,
        StepView::Probe { url, .. } => ActionView::AwaitHealthy { url, timeout_secs: HEALTH_TIMEOUT_SECS },
    }
}

/// The stored state text an event reports, absent or unread counting as `"stopped"`.
pub open spec fn loaded_text(e: EventView) -> Seq<char> {
    match e {
        EventView::StateLoaded(Some(s)) => s,
        _ => "stopped"@,
    }
}

pub open spec fn finish(job: JobView, result: Result<(), ErrorView>) -> (JobView, ActionView) {
    (JobView { phase: PhaseView::Finished { result }, ..job }, ActionView::Finish { result })
}

pub open spec fn goto(job: JobView, phase: PhaseView, a: ActionView) -> (JobView, ActionView) {
    (JobView { phase, ..job }, a)
}

/// One transition of a job: from its phase and the outcome of the last
/// action, the next phase and the next action.
pub open spec fn job_next(apps: Seq<ApplicationView>, job: JobView, e: EventView) -> (JobView, ActionView) {
    let name = job.app;
    match job.phase {
        PhaseView::Begin => if registered(apps, name) {
            goto(job, PhaseView::Locking, ActionView::Lock { app: name })
        } else {
            finish(job, Err(ErrorView::LockNotFound))
        },
        PhaseView::Locking => match e {
            EventView::Failed(m) => finish(job, Err(ErrorView::Failed(m))),
            _ => match job.op {
                Operation::Start => goto(job, PhaseView::ReadingOwn, ActionView::ReadState { app: name }),
                Operation::Stop => {
                    let cs = dependents(apps, name);
                    if cs.len() == 0 {
                        goto(job, PhaseView::Marking, ActionView::WriteState { app: name, state: State::Stopping })
                    } else {
                        goto(job, PhaseView::Checking { consumers: cs, index: 0 }, ActionView::ReadState { app: cs[0] })
                    }
                },
                Operation::Restart => goto(job, PhaseView::Marking, ActionView::WriteState { app: name, state: State::Stopping }),
            },
        },
        PhaseView::ReadingOwn => if status_class(loaded_text(e)) == "running"@ {
            finish(job, Ok(()))
        } else {
            goto(job, PhaseView::Marking, ActionView::WriteState { app: name, state: State::Starting })
        },
        PhaseView::Checking { consumers, index } => {
            let c = status_class(loaded_text(e));
            if c == "running"@ || c == "starting"@ {
                finish(job, Ok(()))
            } else if index < consumers.len() - 1 {
                goto(job, PhaseView::Checking { consumers, index: index + 1 }, ActionView::ReadState { app: consumers[index + 1] })
            } else {
                goto(job, PhaseView::Marking, ActionView::WriteState { app: name, state: State::Stopping })
            }
        },
        PhaseView::Marking => match e {
            EventView::Failed(m) => finish(job, Err(ErrorView::Failed(m))),
            _ => match job_script(apps, job.op, name) {
                Some(steps) => goto(job, PhaseView::Running { steps, index: 0 }, step_action(steps[0])),
                None => finish(job, Err(ErrorView::AppNotFound)),
            },
        },
        PhaseView::Running { steps, index } => match e {
            EventView::Failed(m) => match steps[index] {
                StepView::Probe { app, dependency, .. } => goto(
                    job,
                    PhaseView::RecordingFailure {
                        error: if dependency {
                            ErrorView::DependencyUnhealthy { dependency: app, reason: m }
                        } else {
                            ErrorView::Failed(m)
                        },
                    },
                    ActionView::WriteState { app, state: State::Failed },
                ),
                StepView::Launch { app, .. } => goto(
                    job,
                    PhaseView::RecordingFailure { error: ErrorView::Failed(m) },
                    ActionView::WriteState { app, state: State::Failed },
                ),
                _ => finish(job, Err(ErrorView::Failed(m))),
            },
            _ => if index < steps.len() - 1 {
                goto(job, PhaseView::Running { steps, index: index + 1 }, step_action(steps[index + 1]))
            } else {
                finish(job, Ok(()))
            },
        },
        PhaseView::RecordingFailure { error } => match e {
            EventView::Failed(m) => finish(job, Err(ErrorView::Failed(m))),
            _ => finish(job, Err(error)),
        },
        PhaseView::Finished { result } => finish(job, result),
    }
}

// ---------------------------------------------------------------- runs

/// The actions a job issues when fed `events` one after another.
pub open spec fn run(apps: Seq<ApplicationView>, job: JobView, events: Seq<EventView>) -> Seq<ActionView>
    decreases events.len(),
{
    if events.len() == 0 {
        Seq::empty()
    } else {
        let next = job_next(apps, job, events[0]);
        seq![next.1] + run(apps, next.0, events.drop_first())
    }
}

/// A fresh job.
pub open spec fn fresh(op: Operation, name: Seq<char>) -> JobView {
    JobView { op, app: name, phase: PhaseView::Begin }
}

/// An action that touches the world: a state write, a stack operation or a health wait.
pub open spec fn effectful(a: ActionView) -> bool {
    ||| a is WriteState
    ||| a is StartStack
    ||| a is StopStack
    ||| a is RestartStack
    ||| a is AwaitHealthy
}

/// A stored state that claims the application is up (`running` or `starting`).
pub open spec fn claims_up_text(t: Seq<char>) -> bool {
    status_class(t) == "running"@ || status_class(t) == "starting"@
}

proof fn lemma_run_finished(apps: Seq<ApplicationView>, job: JobView, events: Seq<EventView>)
    requires
        job.phase is Finished,
    ensures
        forall|k: int| 0 <= k < run(apps, job, events).len() ==> !effectful(#[trigger] run(apps, job, events)[k]),
        run(apps, job, events).len() == events.len(),
    decreases events.len(),
{
    if events.len() > 0 {
        let next = job_next(apps, job, events[0]);
        lemma_run_finished(apps, next.0, events.drop_first());
        let rest = run(apps, next.0, events.drop_first());
        assert forall|k: int| 0 <= k < run(apps, job, events).len() implies !effectful(#[trigger] run(apps, job, events)[k]) by {
            if k > 0 {
                assert(run(apps, job, events)[k] == rest[k - 1]);
            }
        }
    }
}

proof fn lemma_run_len(apps: Seq<ApplicationView>, job: JobView, events: Seq<EventView>)
    ensures
        run(apps, job, events).len() == events.len(),
    decreases events.len(),
{
    if events.len() > 0 {
        lemma_run_len(apps, job_next(apps, job, events[0]).0, events.drop_first());
    }
}

/// Law (start fast path): a start acts on nothing (no state write, no stack
/// operation, no health wait) unless the application's own stored state,
/// read after the lock is taken (the third event answers that read), is not
/// running.
pub proof fn law_start_fast_path(apps: Seq<ApplicationView>, name: Seq<char>, events: Seq<EventView>)
    ensures
        acts(apps, fresh(Operation::Start, name), events) ==> events.len() > 2 && status_class(loaded_text(events[2])) != "running"@,
{
    let j0 = fresh(Operation::Start, name);
    if events.len() == 0 {
        assert(run(apps, j0, events).len() == 0);
        return;
    }
    if !acts(apps, j0, events) {
        return;
    }
    let s1 = job_next(apps, j0, events[0]);
    let e1 = events.drop_first();
    lemma_acts_step(apps, j0, events);
    if s1.0.phase is Finished {
        lemma_finished_no_acts(apps, s1.0, e1);
        return;
    }
    if e1.len() == 0 {
        return;
    }
    let s2 = job_next(apps, s1.0, e1[0]);
    let e2 = e1.drop_first();
    lemma_acts_step(apps, s1.0, e1);
    if s2.0.phase is Finished {
        lemma_finished_no_acts(apps, s2.0, e2);
        return;
    }
    if e2.len() == 0 {
        return;
    }
    assert(e2[0] == events[2]);
    let s3 = job_next(apps, s2.0, e2[0]);
    if status_class(loaded_text(events[2])) == "running"@ {
        lemma_acts_step(apps, s2.0, e2);
        lemma_finished_no_acts(apps, s3.0, e2.drop_first());
    }
}

/// Some action of the run touches the world.
pub open spec fn acts(apps: Seq<ApplicationView>, job: JobView, events: Seq<EventView>) -> bool {
    exists|k: int| 0 <= k < run(apps, job, events).len() && effectful(#[trigger] run(apps, job, events)[k])
}

/// The first `n` events are state reads that do not claim running or starting.
pub open spec fn reads_clear(events: Seq<EventView>, n: int) -> bool {
    &&& n <= events.len()
    &&& forall|u: int| 0 <= u < n ==> !claims_up_text(loaded_text(#[trigger] events[u]))
}

proof fn lemma_acts_step(apps: Seq<ApplicationView>, job: JobView, events: Seq<EventView>)
    requires
        events.len() > 0,
        acts(apps, job, events),
        !effectful(job_next(apps, job, events[0]).1),
    ensures
        acts(apps, job_next(apps, job, events[0]).0, events.drop_first()),
{
    let next = job_next(apps, job, events[0]);
    let e1 = events.drop_first();
    let r = run(apps, job, events);
    assert(r =~= seq![next.1] + run(apps, next.0, e1));
    let k = choose|k: int| 0 <= k < r.len() && effectful(#[trigger] r[k]);
    assert(k > 0);
    assert(r[k] == run(apps, next.0, e1)[k - 1]);
}

proof fn lemma_finished_no_acts(apps: Seq<ApplicationView>, job: JobView, events: Seq<EventView>)
    requires
        job.phase is Finished,
    ensures
        !acts(apps, job, events),
{
    lemma_run_finished(apps, job, events);
}

proof fn lemma_run_checking(apps: Seq<ApplicationView>, job: JobView, events: Seq<EventView>)
    requires
        job.op == Operation::Stop,
        job.phase matches PhaseView::Checking { consumers, index } && 0 <= index < consumers.len(),
        acts(apps, job, events),
    ensures
        reads_clear(events, job.phase->Checking_consumers.len() - job.phase->Checking_index),
    decreases events.len(),
{
    let consumers = job.phase->Checking_consumers;
    let index = job.phase->Checking_index;
    if events.len() == 0 {
        assert(run(apps, job, events).len() == 0);
        return;
    }
    let next = job_next(apps, job, events[0]);
    let e1 = events.drop_first();
    if claims_up_text(loaded_text(events[0])) {
        lemma_acts_step(apps, job, events);
        lemma_finished_no_acts(apps, next.0, e1);
    } else if index + 1 >= consumers.len() {
        assert(reads_clear(events, consumers.len() - index));
    } else {
        assert(next.0.phase == PhaseView::Checking { consumers, index: index + 1 });
        lemma_acts_step(apps, job, events);
        lemma_run_checking(apps, next.0, e1);
        assert(reads_clear(e1, consumers.len() - (index + 1)));
        assert forall|u: int| 0 <= u < consumers.len() - index implies u < events.len()
            && !claims_up_text(loaded_text(#[trigger] events[u])) by {
            if u > 0 {
                let n = consumers.len() - (index + 1);
                assert(0 <= u - 1 < n);
                assert(reads_clear(e1, n));
                let w = u - 1;
                assert(!claims_up_text(loaded_text(e1[w])));
                assert(w < e1.len());
                assert(events[u] == e1[u - 1]);
            }
        }
        assert(reads_clear(events, consumers.len() - index));
    }
}

/// Law (stop keeps shared dependencies alive): a stop acts on nothing (no
/// state write, no stack operation) unless every application that depends
/// on it had its stored state read, in order (the answers to those reads
/// are the events from the third on), and none of them claimed to be
/// running or starting.
pub proof fn law_stop_spares_dependencies(apps: Seq<ApplicationView>, name: Seq<char>, events: Seq<EventView>)
    ensures
        acts(apps, fresh(Operation::Stop, name), events) ==>
            forall|u: int| 2 <= u < dependents(apps, name).len() + 2 ==> u < events.len()
                && !claims_up_text(loaded_text(#[trigger] events[u])),
{
    let j0 = fresh(Operation::Stop, name);
    let cs = dependents(apps, name);
    if events.len() == 0 {
        assert(run(apps, j0, events).len() == 0);
        return;
    }
    if !acts(apps, j0, events) {
        return;
    }
    let s1 = job_next(apps, j0, events[0]);
    let e1 = events.drop_first();
    if s1.0.phase is Finished {
        lemma_acts_step(apps, j0, events);
        lemma_finished_no_acts(apps, s1.0, e1);
        return;
    }
    lemma_acts_step(apps, j0, events);
    if e1.len() == 0 || cs.len() == 0 {
        return;
    }
    let s2 = job_next(apps, s1.0, e1[0]);
    let e2 = e1.drop_first();
    if s2.0.phase is Finished {
        lemma_acts_step(apps, s1.0, e1);
        lemma_finished_no_acts(apps, s2.0, e2);
        return;
    }
    assert(s2.0.phase == PhaseView::Checking { consumers: cs, index: 0 });
    lemma_acts_step(apps, s1.0, e1);
    lemma_run_checking(apps, s2.0, e2);
    assert(reads_clear(e2, cs.len() as int));
    assert forall|u: int| 2 <= u < cs.len() + 2 implies u < events.len() && !claims_up_text(loaded_text(#[trigger] events[u])) by {
        let w = u - 2;
        assert(!claims_up_text(loaded_text(e2[w])));
        assert(w < e2.len());
        assert(events[u] == e2[w]);
    }
}

proof fn lemma_run_script(apps: Seq<ApplicationView>, job: JobView, events: Seq<EventView>)
    requires
        job.phase matches PhaseView::Running { steps, index } && 0 <= index < steps.len()
            && events.len() == steps.len() - index,
        forall|k: int| 0 <= k < events.len() ==> #[trigger] events[k] == EventView::Done,
    ensures
        run(apps, job, events) == job.phase->Running_steps.subrange(job.phase->Running_index + 1, job.phase->Running_steps.len() as int).map_values(
            |s: StepView| step_action(s),
        ).push(ActionView::Finish { result: Ok(()) }),
    decreases events.len(),
{
    let steps = job.phase->Running_steps;
    let index = job.phase->Running_index;
    let next = job_next(apps, job, events[0]);
    let e1 = events.drop_first();
    assert(events[0] == EventView::Done);
    if index + 1 < steps.len() {
        lemma_run_script(apps, next.0, e1);
        assert(run(apps, job, events) =~= steps.subrange(index + 1, steps.len() as int).map_values(
            |s: StepView| step_action(s),
        ).push(ActionView::Finish { result: Ok(()) }));
    } else {
        assert(e1.len() == 0);
        assert(run(apps, next.0, e1) == Seq::<ActionView>::empty());
        assert(next.1 == ActionView::Finish { result: Ok(()) });
        assert(run(apps, job, events) =~= seq![ActionView::Finish { result: Ok(()) }]);
        assert(steps.subrange(index + 1, steps.len() as int).map_values(|s: StepView| step_action(s)) =~= Seq::<ActionView>::empty());
    }
}

/// Law (a start that meets no failure): for a registered application whose
/// stored state is not running, and whose dependencies can be ordered, when
/// every action succeeds the start takes the lock, reads the state, marks
/// the application `Starting`, then runs the start blocks of its
/// dependencies in dependency order and its own block (each block starts
/// the stacks, marks `HealthCheck`, waits for health, marks `Running`), and
/// finishes with success.
pub proof fn law_start_success(
    apps: Seq<ApplicationView>,
    name: Seq<char>,
    state: Option<Seq<char>>,
    events: Seq<EventView>,
)
    requires
        registered(apps, name),
        status_class(loaded_text(EventView::StateLoaded(state))) != "running"@,
        dependency_order(apps, name) is Some,
        events.len() == 4 + job_script(apps, Operation::Start, name)->0.len(),
        events[1] == EventView::Done,
        events[2] == EventView::StateLoaded(state),
        forall|k: int| 3 <= k < events.len() ==> #[trigger] events[k] == EventView::Done,
    ensures
        ({
            let script = dependency_blocks(apps, dependency_order(apps, name)->0) + start_block(app_named(apps, name), false);
            run(apps, fresh(Operation::Start, name), events) == seq![
                ActionView::Lock { app: name },
                ActionView::ReadState { app: name },
                ActionView::WriteState { app: name, state: State::Starting },
            ] + script.map_values(|s: StepView| step_action(s)) + seq![ActionView::Finish { result: Ok(()) }]
        }),
{
    let script = dependency_blocks(apps, dependency_order(apps, name)->0) + start_block(app_named(apps, name), false);
    assert(job_script(apps, Operation::Start, name) == Some(script));
    let j0 = fresh(Operation::Start, name);
    let s1 = job_next(apps, j0, events[0]);
    let e1 = events.drop_first();
    let s2 = job_next(apps, s1.0, e1[0]);
    let e2 = e1.drop_first();
    let s3 = job_next(apps, s2.0, e2[0]);
    let e3 = e2.drop_first();
    let s4 = job_next(apps, s3.0, e3[0]);
    let e4 = e3.drop_first();
    assert(e1[0] == events[1] && e2[0] == events[2] && e3[0] == events[3]);
    assert(s4.0.phase == PhaseView::Running { steps: script, index: 0 });
    assert forall|k: int| 0 <= k < e4.len() implies #[trigger] e4[k] == EventView::Done by {
        assert(e4[k] == events[k + 4]);
    }
    lemma_run_script(apps, s4.0, e4);
    assert(script.map_values(|s: StepView| step_action(s)) =~= seq![step_action(script[0])] + script.subrange(1, script.len() as int).map_values(|s: StepView| step_action(s)));
    assert(run(apps, s3.0, e3) =~= seq![s4.1] + run(apps, s4.0, e4));
    assert(run(apps, s2.0, e2) =~= seq![s3.1] + run(apps, s3.0, e3));
    assert(run(apps, s1.0, e1) =~= seq![s2.1] + run(apps, s2.0, e2));
    assert(run(apps, j0, events) =~= seq![s1.1] + run(apps, s1.0, e1));
    assert(run(apps, j0, events) =~= seq![s1.1, s2.1, s3.1, s4.1] + run(apps, s4.0, e4));
}

/// The actions a script issues, in order.
pub open spec fn script_actions(steps: Seq<StepView>) -> Seq<ActionView> {
    steps.map_values(|s: StepView| step_action(s))
}

proof fn lemma_run_marked(apps: Seq<ApplicationView>, job: JobView, events: Seq<EventView>)
    requires
        job.phase is Marking,
        job_script(apps, job.op, job.app) matches Some(steps) && steps.len() > 0
            && events.len() == steps.len() + 1,
        forall|k: int| 0 <= k < events.len() ==> #[trigger] events[k] == EventView::Done,
    ensures
        run(apps, job, events) == script_actions(job_script(apps, job.op, job.app)->0).push(
            ActionView::Finish { result: Ok(()) },
        ),
{
    let steps = job_script(apps, job.op, job.app)->0;
    let next = job_next(apps, job, events[0]);
    let e1 = events.drop_first();
    assert(events[0] == EventView::Done);
    assert(next.0.phase == PhaseView::Running { steps, index: 0 });
    assert forall|k: int| 0 <= k < e1.len() implies #[trigger] e1[k] == EventView::Done by {
        assert(e1[k] == events[k + 1]);
    }
    lemma_run_script(apps, next.0, e1);
    assert(run(apps, job, events) =~= seq![next.1] + run(apps, next.0, e1));
    assert(script_actions(steps) =~= seq![step_action(steps[0])] + steps.subrange(1, steps.len() as int).map_values(
        |s: StepView| step_action(s),
    ));
}

proof fn lemma_run_checked(apps: Seq<ApplicationView>, job: JobView, events: Seq<EventView>)
    requires
        job.op == Operation::Stop,
        job.phase matches PhaseView::Checking { consumers, index } && 0 <= index < consumers.len()
            && reads_clear(events, consumers.len() - index),
    ensures
        ({
            let cs = job.phase->Checking_consumers;
            let i = job.phase->Checking_index;
            run(apps, job, events) == cs.subrange(i + 1, cs.len() as int).map_values(
                |c: Seq<char>| ActionView::ReadState { app: c },
            ).push(ActionView::WriteState { app: job.app, state: State::Stopping })
                + run(apps, JobView { phase: PhaseView::Marking, ..job }, events.subrange(cs.len() - i, events.len() as int))
        }),
    decreases job.phase->Checking_consumers.len() - job.phase->Checking_index,
{
    let cs = job.phase->Checking_consumers;
    let i = job.phase->Checking_index;
    let next = job_next(apps, job, events[0]);
    let e1 = events.drop_first();
    assert(!claims_up_text(loaded_text(events[0])));
    assert(run(apps, job, events) =~= seq![next.1] + run(apps, next.0, e1));
    if i + 1 < cs.len() {
        assert(next.0.phase == PhaseView::Checking { consumers: cs, index: i + 1 });
        assert forall|u: int| 0 <= u < cs.len() - (i + 1) implies !claims_up_text(loaded_text(#[trigger] e1[u])) by {
            assert(e1[u] == events[u + 1]);
        }
        lemma_run_checked(apps, next.0, e1);
        assert(e1.subrange(cs.len() - (i + 1), e1.len() as int) =~= events.subrange(cs.len() - i, events.len() as int));
        assert(cs.subrange(i + 1, cs.len() as int).map_values(|c: Seq<char>| ActionView::ReadState { app: c })
            =~= seq![ActionView::ReadState { app: cs[i + 1] }] + cs.subrange(i + 2, cs.len() as int).map_values(
            |c: Seq<char>| ActionView::ReadState { app: c },
        ));
    } else {
        assert(e1 =~= events.subrange(cs.len() - i, events.len() as int));
        assert(cs.subrange(i + 1, cs.len() as int).map_values(|c: Seq<char>| ActionView::ReadState { app: c })
            =~= Seq::<ActionView>::empty());
    }
}

/// Law (a restart that meets no failure): for a registered application, when
/// every action succeeds the restart takes the lock, marks the application
/// `Stopping`, restarts each stack, marks it `HealthCheck`, waits for its
/// health URL (when it has one), marks it `Running`, and finishes with
/// success.
pub proof fn law_restart_success(apps: Seq<ApplicationView>, name: Seq<char>, events: Seq<EventView>)
    requires
        registered(apps, name),
        events.len() == 3 + restart_script(app_named(apps, name)).len(),
        forall|k: int| 1 <= k < events.len() ==> #[trigger] events[k] == EventView::Done,
    ensures
        run(apps, fresh(Operation::Restart, name), events) == seq![
            ActionView::Lock { app: name },
            ActionView::WriteState { app: name, state: State::Stopping },
        ] + script_actions(restart_script(app_named(apps, name))) + seq![ActionView::Finish { result: Ok(()) }],
{
    let j0 = fresh(Operation::Restart, name);
    let s1 = job_next(apps, j0, events[0]);
    let e1 = events.drop_first();
    let s2 = job_next(apps, s1.0, e1[0]);
    let e2 = e1.drop_first();
    assert(e1[0] == events[1]);
    assert(s2.0.phase == PhaseView::Marking);
    assert forall|k: int| 0 <= k < e2.len() implies #[trigger] e2[k] == EventView::Done by {
        assert(e2[k] == events[k + 2]);
    }
    lemma_run_marked(apps, s2.0, e2);
    assert(run(apps, s1.0, e1) =~= seq![s2.1] + run(apps, s2.0, e2));
    assert(run(apps, j0, events) =~= seq![s1.1] + run(apps, s1.0, e1));
}

/// Law (a stop that meets no failure): for a registered application none of
/// whose dependents claims to be running or starting, when every action
/// succeeds the stop takes the lock, reads the stored state of each
/// dependent in turn, marks the application `Stopping`, stops each stack,
/// marks it `Idle` (with an idle timeout) or `Stopped`, and finishes with
/// success.
pub proof fn law_stop_success(apps: Seq<ApplicationView>, name: Seq<char>, events: Seq<EventView>)
    requires
        registered(apps, name),
        events.len() == 3 + dependents(apps, name).len() + stop_script(app_named(apps, name)).len(),
        events[1] == EventView::Done,
        forall|u: int| 2 <= u < 2 + dependents(apps, name).len() ==> !claims_up_text(loaded_text(#[trigger] events[u])),
        forall|k: int| 2 + dependents(apps, name).len() <= k < events.len() ==> #[trigger] events[k] == EventView::Done,
    ensures
        run(apps, fresh(Operation::Stop, name), events) == seq![ActionView::Lock { app: name }]
            + dependents(apps, name).map_values(|c: Seq<char>| ActionView::ReadState { app: c })
            + seq![ActionView::WriteState { app: name, state: State::Stopping }]
            + script_actions(stop_script(app_named(apps, name))) + seq![ActionView::Finish { result: Ok(()) }],
{
    let cs = dependents(apps, name);
    let n = cs.len() as int;
    let j0 = fresh(Operation::Stop, name);
    let marked = JobView { phase: PhaseView::Marking, ..j0 };
    let s1 = job_next(apps, j0, events[0]);
    let e1 = events.drop_first();
    let s2 = job_next(apps, s1.0, e1[0]);
    let e2 = e1.drop_first();
    assert(e1[0] == events[1]);
    assert(run(apps, j0, events) =~= seq![s1.1] + run(apps, s1.0, e1));
    assert(run(apps, s1.0, e1) =~= seq![s2.1] + run(apps, s2.0, e2));
    let tail = events.subrange(2 + n, events.len() as int);
    assert forall|k: int| 0 <= k < tail.len() implies #[trigger] tail[k] == EventView::Done by {
        assert(tail[k] == events[k + 2 + n]);
    }
    lemma_run_marked(apps, marked, tail);
    if n == 0 {
        assert(s2.0 == marked);
        assert(e2 =~= tail);
        assert(cs.map_values(|c: Seq<char>| ActionView::ReadState { app: c }) =~= Seq::<ActionView>::empty());
    } else {
        assert(s2.0.phase == PhaseView::Checking { consumers: cs, index: 0 });
        assert forall|u: int| 0 <= u < n implies !claims_up_text(loaded_text(#[trigger] e2[u])) by {
            assert(e2[u] == events[u + 2]);
        }
        lemma_run_checked(apps, s2.0, e2);
        assert(e2.subrange(n, e2.len() as int) =~= tail);
        assert(JobView { phase: PhaseView::Marking, ..s2.0 } == marked);
        assert(cs.map_values(|c: Seq<char>| ActionView::ReadState { app: c }) =~= seq![ActionView::ReadState { app: cs[0] }]
            + cs.subrange(1, n).map_values(|c: Seq<char>| ActionView::ReadState { app: c }));
    }
}

/// Law (starting a running application again): a start that meets no
/// failure ends by storing `Running` for the application; and a start that
/// reads that stored state back takes the lock, reads the state and
/// finishes with success, with no other action.
pub proof fn law_start_again(apps: Seq<ApplicationView>, name: Seq<char>, events: Seq<EventView>)
    requires
        registered(apps, name),
        events.len() == 3,
        events[1] == EventView::Done,
        events[2] == EventView::StateLoaded(Some(state_label(State::Running))),
    ensures
        job_script(apps, Operation::Start, name) matches Some(sc) ==> sc.last() == StepView::Run(
            ActionView::WriteState { app: name, state: State::Running },
        ),
        run(apps, fresh(Operation::Start, name), events) == seq![
            ActionView::Lock { app: name },
            ActionView::ReadState { app: name },
            ActionView::Finish { result: Ok(()) },
        ],
{
    lemma_find_in(apps, name);
    law_state_round_trip(State::Running);
    let j0 = fresh(Operation::Start, name);
    let s1 = job_next(apps, j0, events[0]);
    let e1 = events.drop_first();
    let s2 = job_next(apps, s1.0, e1[0]);
    let e2 = e1.drop_first();
    let s3 = job_next(apps, s2.0, e2[0]);
    let e3 = e2.drop_first();
    assert(e1[0] == events[1] && e2[0] == events[2]);
    assert(loaded_text(e2[0]) == state_label(State::Running));
    assert(s3.1 == ActionView::Finish { result: Ok(()) });
    assert(e3.len() == 0);
    assert(run(apps, s3.0, e3) == Seq::<ActionView>::empty());
    assert(run(apps, s2.0, e2) =~= seq![s3.1]);
    assert(run(apps, s1.0, e1) =~= seq![s2.1, s3.1]);
    assert(run(apps, j0, events) =~= seq![s1.1, s2.1, s3.1]);
}

/// The application a guarded step belongs to.
pub open spec fn step_app(s: StepView) -> Seq<char> {
    match s {
        StepView::Launch { app, .. } => app,
        StepView::Probe { app, .. } => app,
        StepView::Run(_) => Seq::empty(),
    }
}

/// The error a job ends with when a guarded step fails with message `m`.
pub open spec fn step_failure(s: StepView, m: Seq<char>) -> ErrorView {
    match s {
        StepView::Probe { app, dependency, .. } => if dependency {
            ErrorView::DependencyUnhealthy { dependency: app, reason: m }
        } else {
            ErrorView::Failed(m)
        },
        _ => ErrorView::Failed(m),
    }
}

/// Law (failed starts are recorded): when a stack start or restart, or a
/// health wait, fails while a script runs, the next action marks the
/// application it belongs to `Failed`; once that is stored the job finishes
/// with the failure (for a dependency's health wait, naming the dependency).
pub proof fn law_failure_marks_failed(apps: Seq<ApplicationView>, job: JobView, m: Seq<char>)
    requires
        job.phase matches PhaseView::Running { steps, index } && 0 <= index < steps.len() && !(steps[index] is Run),
    ensures
        ({
            let s = job.phase->Running_steps[job.phase->Running_index];
            run(apps, job, seq![EventView::Failed(m), EventView::Done]) == seq![
                ActionView::WriteState { app: step_app(s), state: State::Failed },
                ActionView::Finish { result: Err(step_failure(s, m)) },
            ]
        }),
{
    let events = seq![EventView::Failed(m), EventView::Done];
    let n1 = job_next(apps, job, events[0]);
    let e1 = events.drop_first();
    let n2 = job_next(apps, n1.0, e1[0]);
    let e2 = e1.drop_first();
    assert(e2.len() == 0);
    assert(run(apps, n2.0, e2) == Seq::<ActionView>::empty());
    assert(run(apps, n1.0, e1) =~= seq![n2.1]);
    assert(run(apps, job, events) =~= seq![n1.1, n2.1]);
}

// ---------------------------------------------------------------- execution

fn clone_error(e: &LifecycleError) -> (r: LifecycleError)
    ensures
        r@ == e@,
{
    match e {
        LifecycleError::LockNotFound => LifecycleError::LockNotFound,
        LifecycleError::AppNotFound => LifecycleError::AppNotFound,
        LifecycleError::Failed(m) => LifecycleError::Failed(m.clone()),
        LifecycleError::DependencyUnhealthy { dependency, reason } => LifecycleError::DependencyUnhealthy {
            dependency: dependency.clone(),
            reason: reason.clone(),
        },
    }
}

fn clone_result(r: &Result<(), LifecycleError>) -> (c: Result<(), LifecycleError>)
    ensures
        result_view(c) == result_view(*r),
{
    match r {
        Ok(()) => Ok(()),
        Err(e) => Err(clone_error(e)),
    }
}

fn clone_action(a: &Action) -> (r: Action)
    ensures
        r@ == a@,
{
    match a {
        Action::Lock { app } => Action::Lock { app: app.clone() },
        Action::ReadState { app } => Action::ReadState { app: app.clone() },
        Action::WriteState { app, state } => Action::WriteState { app: app.clone(), state: *state },
        Action::StartStack { compose } => Action::StartStack { compose: compose.clone() },
        Action::StopStack { compose } => Action::StopStack { compose: compose.clone() },
        Action::RestartStack { compose } => Action::RestartStack { compose: compose.clone() },
        Action::AwaitHealthy { url, timeout_secs } => Action::AwaitHealthy { url: url.clone(), timeout_secs: *timeout_secs },
        Action::Finish { result } => Action::Finish { result: clone_result(result) },
    }
}

fn action_of(s: &Step) -> (r: Action)
    ensures
        r@ == step_action(s@),
{
    match s {
        Step::Run(a) => clone_action(a),
        Step::Launch { action, .. } => clone_action(action),
        Step::Probe { url, .. } => Action::AwaitHealthy { url: url.clone(), timeout_secs: HEALTH_TIMEOUT_SECS },
    }
}

/// Appends `up_block(a, dependency, restart)`.
fn push_up_block(out: &mut Vec<Step>, a: &Application, dependency: bool, restart: bool)
    ensures
        steps_view(final(out)@) == steps_view(old(out)@) + up_block(a@, dependency, restart),
{
    let ghost av = a@;
    let ghost base = steps_view(out@);
    let n = a.stacks.len();
    for j in 0..n
        invariant
            n == a.stacks@.len(),
            av == a@,
            steps_view(out@) == base + av.stacks.take(j as int).map_values(
                |s: StackView| StepView::Launch {
                    app: av.name,
                    action: if restart {
                        ActionView::RestartStack { compose: s.compose }
                    } else {
                        ActionView::StartStack { compose: s.compose }
                    },
                },
            ),
    {
        let ghost before = steps_view(out@);
        let compose = a.stacks[j].1.compose.clone();
        let action = if restart {
            Action::RestartStack { compose }
        } else {
            Action::StartStack { compose }
        };
        out.push(Step::Launch { app: a.name.clone(), action });
        assert(steps_view(out@) =~= before.push(steps_view(out@).last()));
        assert(av.stacks.take(j + 1).drop_last() =~= av.stacks.take(j as int));
    }
    assert(av.stacks.take(n as int) =~= av.stacks);
    let ghost after_stacks = steps_view(out@);
    out.push(Step::Run(Action::WriteState { app: a.name.clone(), state: State::HealthCheck }));
    assert(steps_view(out@) =~= after_stacks.push(StepView::Run(ActionView::WriteState { app: av.name, state: State::HealthCheck })));
    let ghost after_mark = steps_view(out@);
    match &a.health.backend {
        Some(u) => {
            out.push(Step::Probe { app: a.name.clone(), url: u.clone(), dependency });
            assert(steps_view(out@) =~= after_mark + seq![StepView::Probe { app: av.name, url: u@, dependency }]);
        },
        None => {
            assert(steps_view(out@) =~= after_mark + Seq::<StepView>::empty());
        },
    }
    let ghost after_probe = steps_view(out@);
    out.push(Step::Run(Action::WriteState { app: a.name.clone(), state: State::Running }));
    assert(steps_view(out@) =~= after_probe.push(StepView::Run(ActionView::WriteState { app: av.name, state: State::Running })));
    assert(steps_view(out@) =~= base + up_block(av, dependency, restart));
}

/// The steps of `stop_script(a@)`.
fn stop_steps(a: &Application) -> (out: Vec<Step>)
    ensures
        steps_view(out@) == stop_script(a@),
{
    let ghost av = a@;
    let mut out: Vec<Step> = Vec::new();
    let n = a.stacks.len();
    for j in 0..n
        invariant
            n == a.stacks@.len(),
            av == a@,
            steps_view(out@) == av.stacks.take(j as int).map_values(
                |s: StackView| StepView::Run(ActionView::StopStack { compose: s.compose }),
            ),
    {
        let ghost before = steps_view(out@);
        out.push(Step::Run(Action::StopStack { compose: a.stacks[j].1.compose.clone() }));
        assert(steps_view(out@) =~= before.push(steps_view(out@).last()));
        assert(av.stacks.take(j + 1).drop_last() =~= av.stacks.take(j as int));
    }
    assert(av.stacks.take(n as int) =~= av.stacks);
    let ghost body = steps_view(out@);
    let st = match &a.idle_timeout {
        Some(_) => State::Idle,
        None => State::Stopped,
    };
    out.push(Step::Run(Action::WriteState { app: a.name.clone(), state: st }));
    assert(steps_view(out@) =~= body.push(steps_view(out@).last()));
    assert(steps_view(out@) =~= stop_script(av));
    out
}

impl LifeCycleManager {
    /// The script of `op` for the registered application `name` (see `job_script`).
    pub fn script_for(&self, op: Operation, name: &str) -> (r: Option<Vec<Step>>)
        ensures
            match job_script(self@, op, name@) {
                Some(steps) => r matches Some(v) && steps_view(v@) == steps,
                None => r is None,
            },
    {
        let ghost apps = self@;
        proof {
            lemma_find_in(apps, name@);
        }
        let own = match self.find_app(name) {
            Some(k) => k,
            None => {
                return None;
            },
        };
        assert(apps[own as int] == self.apps@[own as int]@);
        assert(app_named(apps, name@) == self.apps@[own as int]@);
        if op == Operation::Stop {
            return Some(stop_steps(&self.apps[own]));
        }
        if op == Operation::Restart {
            let mut out: Vec<Step> = Vec::new();
            push_up_block(&mut out, &self.apps[own], false, true);
            assert(steps_view(out@) =~= restart_script(apps[own as int]));
            return Some(out);
        }
        let (order, found) = match self.collect_dependency_names(own) {
            Some(p) => p,
            None => {
                return None;
            },
        };
        let ghost ord = crate::domain::names_view(order@);
        let mut out: Vec<Step> = Vec::new();
        let n = found.len();
        for t in 0..n
            invariant
                n == found@.len(),
                n == ord.len(),
                apps == self@,
                forall|u: int| 0 <= u < ord.len() ==> find_in(apps, #[trigger] ord[u]) == Some(found@[u] as int),
                steps_view(out@) == dependency_blocks(apps, ord.take(t as int)),
        {
            let k = found[t];
            proof {
                lemma_find_in(apps, ord[t as int]);
                assert(find_in(apps, ord[t as int]) == Some(k as int));
                assert(apps[k as int] == self.apps@[k as int]@);
                assert(ord.take(t + 1).drop_last() =~= ord.take(t as int));
                assert(ord.take(t + 1).last() == ord[t as int]);
            }
            push_up_block(&mut out, &self.apps[k], true, false);
        }
        assert(ord.take(n as int) =~= ord);
        push_up_block(&mut out, &self.apps[own], false, false);
        Some(out)
    }
}

impl Job {
    /// The invariant a job keeps: indices stay inside their lists.
    pub open spec fn wf(&self) -> bool {
        match &self.phase {
            Phase::Checking { consumers, index } => *index < consumers@.len(),
            Phase::Running { steps, index } => *index < steps@.len(),
            _ => true,
        }
    }

    /// A job about to carry out `op` on the application `app`.
    pub fn new(op: Operation, app: String) -> (j: Job)
        ensures
            j.wf(),
            j@ == (JobView { op, app: app@, phase: PhaseView::Begin }),
    {
        Job { op, app, phase: Phase::Begin }
    }

    fn finish_with(&mut self, result: Result<(), LifecycleError>) -> (a: Action)
        ensures
            final(self).wf(),
            (final(self)@, a@) == finish(old(self)@, result_view(result)),
    {
        let c = clone_result(&result);
        self.phase = Phase::Finished { result };
        Action::Finish { result: c }
    }

    /// Feeds the outcome of the last action and returns the next one
    /// (see `job_next`).
    pub fn step(&mut self, mgr: &LifeCycleManager, event: Event) -> (a: Action)
        requires
            old(self).wf(),
        ensures
            final(self).wf(),
            (final(self)@, a@) == job_next(mgr@, old(self)@, event@),
    {
        let ghost apps = mgr@;
        let ghost j0 = self@;
        let mut phase = Phase::Begin;
        std::mem::swap(&mut phase, &mut self.phase);
        assert(phase@ == j0.phase);
        match phase {
            Phase::Begin => {
                if mgr.find_app(self.app.as_str()).is_some() {
                    self.phase = Phase::Locking;
                    Action::Lock { app: self.app.clone() }
                } else {
                    self.finish_with(Err(LifecycleError::LockNotFound))
                }
            },
            Phase::Locking => match event {
                Event::Failed(m) => self.finish_with(Err(LifecycleError::Failed(m))),
                _ => match self.op {
                    Operation::Start => {
                        self.phase = Phase::ReadingOwn;
                        Action::ReadState { app: self.app.clone() }
                    },
                    Operation::Stop => {
                        let cs = mgr.dependents_of(self.app.as_str());
                        if cs.len() == 0 {
                            self.phase = Phase::Marking;
                            Action::WriteState { app: self.app.clone(), state: State::Stopping }
                        } else {
                            let first = cs[0].clone();
                            assert(crate::domain::names_view(cs@)[0] == first@);
                            self.phase = Phase::Checking { consumers: cs, index: 0 };
                            Action::ReadState { app: first }
                        }
                    },
                    Operation::Restart => {
                        self.phase = Phase::Marking;
                        Action::WriteState { app: self.app.clone(), state: State::Stopping }
                    },
                },
            },
            Phase::ReadingOwn => {
                let raw = match &event {
                    Event::StateLoaded(Some(s)) => s.clone(),
                    _ => String::from_str("stopped"),
                };
                assert(raw@ == loaded_text(event@));
                let status = normalize_status(raw.as_str());
                if str_eq(status.as_str(), "running") {
                    self.finish_with(Ok(()))
                } else {
                    self.phase = Phase::Marking;
                    Action::WriteState { app: self.app.clone(), state: State::Starting }
                }
            },
            Phase::Checking { consumers, index } => {
                let raw = match &event {
                    Event::StateLoaded(Some(s)) => s.clone(),
                    _ => String::from_str("stopped"),
                };
                assert(raw@ == loaded_text(event@));
                let status = normalize_status(raw.as_str());
                if str_eq(status.as_str(), "running") || str_eq(status.as_str(), "starting") {
                    self.finish_with(Ok(()))
                } else if index < consumers.len() - 1 {
                    let next = consumers[index + 1].clone();
                    assert(consumers@.map_values(|c: String| c@)[index + 1] == next@);
                    self.phase = Phase::Checking { consumers, index: index + 1 };
                    Action::ReadState { app: next }
                } else {
                    self.phase = Phase::Marking;
                    Action::WriteState { app: self.app.clone(), state: State::Stopping }
                }
            },
            Phase::Marking => match event {
                Event::Failed(m) => self.finish_with(Err(LifecycleError::Failed(m))),
                _ => {
                    proof {
                        lemma_find_in(apps, j0.app);
                    }
                    match mgr.script_for(self.op, self.app.as_str()) {
                        Some(steps) => {
                            proof {
                                assert(steps_view(steps@).len() > 0) by {
                                    reveal_with_fuel(dependency_blocks, 1);
                                }
                            }
                            let first = action_of(&steps[0]);
                            self.phase = Phase::Running { steps, index: 0 };
                            first
                        },
                        None => self.finish_with(Err(LifecycleError::AppNotFound)),
                    }
                },
            },
            Phase::Running { steps, index } => match event {
                Event::Failed(m) => {
                    assert(steps_view(steps@)[index as int] == steps@[index as int]@);
                    match &steps[index] {
                        Step::Probe { app, dependency, .. } => {
                            let who = app.clone();
                            let error = if *dependency {
                                LifecycleError::DependencyUnhealthy { dependency: app.clone(), reason: m }
                            } else {
                                LifecycleError::Failed(m)
                            };
                            self.phase = Phase::RecordingFailure { error };
                            Action::WriteState { app: who, state: State::Failed }
                        },
                        Step::Launch { app, .. } => {
                            let who = app.clone();
                            self.phase = Phase::RecordingFailure { error: LifecycleError::Failed(m) };
                            Action::WriteState { app: who, state: State::Failed }
                        },
                        _ => self.finish_with(Err(LifecycleError::Failed(m))),
                    }
                },
                _ => {
                    if index < steps.len() - 1 {
                        assert(steps_view(steps@)[index + 1] == steps@[index + 1]@);
                        let next = action_of(&steps[index + 1]);
                        self.phase = Phase::Running { steps, index: index + 1 };
                        next
                    } else {
                        self.finish_with(Ok(()))
                    }
                },
            },
            Phase::RecordingFailure { error } => match event {
                Event::Failed(m) => self.finish_with(Err(LifecycleError::Failed(m))),
                _ => self.finish_with(Err(error)),
            },
            Phase::Finished { result } => self.finish_with(result),
        }
    }
}

} // verus!
