//! Waiting for an application's health URL.

use vstd::prelude::*;
use vstd::string::*;
use crate::text::push_str;

verus! {

/// The outcome of the last step of a health wait.
#[derive(Clone, Copy, Debug, PartialEq, Eq)]
pub enum HealthEvent {
    /// The wait begins.
    Begin,
    /// The URL was polled; `true` when it answered with a success status.
    Probed(bool),
    /// The one-second pause is over.
    Slept,
}

/// What a health wait does next.
#[derive(Clone, Debug, PartialEq, Eq)]
pub enum HealthAction {
    /// Poll the URL.
    Probe,
    /// Pause one second.
    Sleep,
    /// The URL answered with success.
    Healthy,
    /// Time ran out; the message says for which URL.
    TimedOut(String),
}

pub enum HealthActionView {
    Probe,
    Sleep,
    Healthy,
    TimedOut(Seq<char>),
}

impl View for HealthAction {
    type V = HealthActionView;

    open spec fn view(&self) -> HealthActionView {
        match self {
            HealthAction::Probe => HealthActionView::Probe,
            HealthAction::Sleep => HealthActionView::Sleep,
            HealthAction::Healthy => HealthActionView::Healthy,
            HealthAction::TimedOut(m) => HealthActionView::TimedOut(m@),
        }
    }
}

pub open spec fn timeout_message(url: Seq<char>) -> Seq<char> {
    "Timeout reached while waiting for "@ + url + " to become healthy"@
}

/// One step of waiting for `url`, `elapsed_secs` whole seconds after the
/// wait began: poll while fewer than `timeout_secs` seconds have passed,
/// pause a second after each failed poll, and give up after that.
pub open spec fn health_next(url: Seq<char>, timeout_secs: u64, elapsed_secs: u64, probed: Option<bool>) -> HealthActionView {
    match probed {
        Some(true) => HealthActionView::Healthy,
        Some(false) => HealthActionView::Sleep,
        None => if elapsed_secs < timeout_secs {
            HealthActionView::Probe
        } else {
            HealthActionView::TimedOut(timeout_message(url))
        },
    }
}

/// One step of a health wait (see `health_next`).
pub fn wait_step(url: &str, timeout_secs: u64, elapsed_secs: u64, event: HealthEvent) -> (a: HealthAction)
    ensures
        a@ == health_next(
            url@,
            timeout_secs,
            elapsed_secs,
            match event {
                HealthEvent::Probed(b) => Some(b),
                _ => None,
            },
        ),
{
    match event {
        HealthEvent::Probed(true) => HealthAction::Healthy,
        HealthEvent::Probed(false) => HealthAction::Sleep,
        _ => {
            if elapsed_secs < timeout_secs {
                HealthAction::Probe
            } else {
                let mut m = String::from_str("Timeout reached while waiting for ");
                push_str(&mut m, url);
                push_str(&mut m, " to become healthy");
                HealthAction::TimedOut(m)
            }
        },
    }
}

} // verus!
