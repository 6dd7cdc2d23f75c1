//! How the management API answers failures.

use vstd::prelude::*;
use vstd::string::*;
use crate::text::{chars_of, contains_chars, contains_seq, push_str};

verus! {

/// An HTTP status and the text of the answer.
#[derive(Clone, Debug, PartialEq, Eq)]
pub struct ApiError {
    pub status: u16,
    pub message: String,
}

/// The answer when the application list cannot be built: 500,
/// `failed to list applications: <error>`.
pub fn list_failure(error: &str) -> (r: ApiError)
    ensures
        r.status == 500,
        r.message@ == "failed to list applications: "@ + error@,
{
    let mut m = String::from_str("failed to list applications: ");
    push_str(&mut m, error);
    ApiError { status: 500, message: m }
}

/// The answer when an application's detail cannot be built: 404,
/// `application '<id>' not found` when the error says `app not found`, else
/// 500, `failed to get application: <error>`.
pub fn detail_failure(id: &str, error: &str) -> (r: ApiError)
    ensures
        contains_seq(error@, "app not found"@) ==> r.status == 404 && r.message@ == "application '"@ + id@
            + "' not found"@,
        !contains_seq(error@, "app not found"@) ==> r.status == 500 && r.message@ == "failed to get application: "@
            + error@,
{
    if contains_chars(&chars_of(error), &chars_of("app not found")) {
        let mut m = String::from_str("application '");
        push_str(&mut m, id);
        push_str(&mut m, "' not found");
        ApiError { status: 404, message: m }
    } else {
        let mut m = String::from_str("failed to get application: ");
        push_str(&mut m, error);
        ApiError { status: 500, message: m }
    }
}

/// The answer to a start, stop or restart request: 204 on success, else
/// 500, `<action> failed: <error>`.
pub fn lifecycle_answer(action: &str, outcome: Result<(), String>) -> (r: Result<u16, ApiError>)
    ensures
        match outcome {
            Ok(()) => r == Ok::<u16, ApiError>(204),
            Err(e) => r matches Err(a) && a.status == 500 && a.message@ == action@ + " failed: "@ + e@,
        },
{
    match outcome {
        Ok(()) => Ok(204),
        Err(e) => {
            let mut m = String::from_str(action);
            push_str(&mut m, " failed: ");
            push_str(&mut m, e.as_str());
            Err(ApiError { status: 500, message: m })
        },
    }
}

} // verus!
