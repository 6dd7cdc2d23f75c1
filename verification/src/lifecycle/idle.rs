//! The idle-shutdown decision.

use vstd::prelude::*;
use crate::domain::{Application, idle_timeout_seconds, opt_view};
use crate::lifecycle::manager::{normalize_status, status_class};
use crate::lifecycle::report::stored_text;
use crate::text::str_eq;

verus! {

/// Whether the idle sweep stops `app`: its idle timeout parses to `t`
/// seconds, its stored state (an absent one counting as `"stopped"`) is
/// running, and it has been idle (`idle`: whole seconds and nanoseconds)
/// for longer than `t` seconds.
pub open spec fn idle_stop_spec(app: Application, raw_state: Option<String>, idle: Option<(u64, u32)>) -> bool {
    &&& app.idle_timeout_spec() matches Some(t)
    &&& status_class(stored_text(opt_view(raw_state))) == "running"@
    &&& idle matches Some(d)
    &&& (d.0 > t || (d.0 == t && d.1 > 0))
}

/// Whether the idle sweep stops `app` (see `idle_stop_spec`); `idle` is how
/// long it has been idle, as whole seconds and the nanoseconds beyond them,
/// or `None` when that is not known.
pub fn idle_stop_due(app: &Application, raw_state: &Option<String>, idle: Option<(u64, u32)>) -> (r: bool)
    requires
        app.idle_timeout_in_range(),
    ensures
        r == idle_stop_spec(*app, *raw_state, idle),
{
    let text = match &app.idle_timeout {
        Some(t) => t,
        None => return false,
    };
    let timeout = match idle_timeout_seconds(text.as_str()) {
        Some(t) => t,
        None => return false,
    };
    let raw = match raw_state {
        Some(s) => s.clone(),
        None => String::from_str("stopped"),
    };
    let status = normalize_status(raw.as_str());
    if !str_eq(status.as_str(), "running") {
        return false;
    }
    match idle {
        Some((secs, nanos)) => secs > timeout || (secs == timeout && nanos > 0),
        None => false,
    }
}

} // verus!
