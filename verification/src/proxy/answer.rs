//! What the proxy answers when it cannot forward a request.

use vstd::prelude::*;
use vstd::string::*;
use crate::proxy::router::wake_failure_body;
use crate::text::push_str;

verus! {

/// A direct answer: a status code and a text body.
#[derive(Clone, Debug, PartialEq, Eq)]
pub struct Answer {
    pub status: u16,
    pub body: String,
}

/// What becomes of a routed request once any wake has been tried.
#[derive(Clone, Debug, PartialEq, Eq)]
pub enum RouteStep {
    /// Record activity for `app`, then forward the request to `target`.
    Forward { app: String, target: String },
    /// Answer at once; nothing is forwarded and no activity is recorded.
    Refuse(Answer),
}

/// The next step for a request routed to `app` at `target`. `wake` is the
/// outcome of starting the application, `None` when it was already
/// running: a failed start is answered `503 Service Unavailable` with
/// `wake_failure_body`, otherwise the request goes on.
pub fn after_wake(app: &str, target: &str, wake: Option<Result<(), String>>) -> (r: RouteStep)
    ensures
        match wake {
            Some(Err(e)) => r matches RouteStep::Refuse(a) && a.status == 503
                && a.body@ == "pulse proxy: could not start '"@ + app@ + "': "@ + e@,
            _ => r matches RouteStep::Forward { app: x, target: t } && x@ == app@ && t@ == target@,
        },
{
    match wake {
        Some(Err(e)) => RouteStep::Refuse(Answer { status: 503, body: wake_failure_body(app, e.as_str()) }),
        _ => RouteStep::Forward { app: app.to_string(), target: target.to_string() },
    }
}

/// Why a request could not be passed to its upstream.
#[derive(Clone, Copy, Debug, PartialEq, Eq)]
pub enum UpstreamFailure {
    /// The target of a plain request is not a URI.
    BadUri,
    /// The target of a WebSocket handshake is not a URI.
    BadWsUri,
    /// The plain request failed.
    Http,
    /// The WebSocket handshake could not reach the backend.
    WsConnect,
    /// The backend answered the handshake with another status than 101.
    NotUpgraded,
}

/// The text that opens the body for each failure.
pub open spec fn failure_lead(f: UpstreamFailure) -> Seq<char> {
    match f {
        UpstreamFailure::BadUri => "invalid upstream URI: "@,
        UpstreamFailure::BadWsUri => "invalid upstream WS URI: "@,
        UpstreamFailure::Http => "upstream HTTP error: "@,
        UpstreamFailure::WsConnect => "upstream WS connect error: "@,
        UpstreamFailure::NotUpgraded => "backend did not upgrade WebSocket (got "@,
    }
}

/// The body for each failure: its lead and `detail` (the error, or for
/// `NotUpgraded` the status the backend gave, in brackets).
pub open spec fn failure_body(f: UpstreamFailure, detail: Seq<char>) -> Seq<char> {
    match f {
        UpstreamFailure::NotUpgraded => failure_lead(f) + detail + ")"@,
        _ => failure_lead(f) + detail,
    }
}

/// The answer when a request could not be passed on: `502 Bad Gateway`
/// with `failure_body(f, detail)`.
pub fn upstream_answer(f: UpstreamFailure, detail: &str) -> (a: Answer)
    ensures
        a.status == 502,
        a.body@ == failure_body(f, detail@),
{
    let mut body = match f {
        UpstreamFailure::BadUri => String::from_str("invalid upstream URI: "),
        UpstreamFailure::BadWsUri => String::from_str("invalid upstream WS URI: "),
        UpstreamFailure::Http => String::from_str("upstream HTTP error: "),
        UpstreamFailure::WsConnect => String::from_str("upstream WS connect error: "),
        UpstreamFailure::NotUpgraded => String::from_str("backend did not upgrade WebSocket (got "),
    };
    push_str(&mut body, detail);
    if let UpstreamFailure::NotUpgraded = f {
        push_str(&mut body, ")");
    }
    Answer { status: 502, body }
}

/// Whether a backend's answer to a WebSocket handshake switches protocols (101).
pub fn upgraded(status: u16) -> (r: bool)
    ensures
        r == (status == 101),
{
    status == 101
}

} // verus!
