//! The pure parts of the tracker client: the REST URLs it addresses, and the
//! decoding of the JSON issue-summary response. The network transport itself
//! lives outside the library; it hands response bodies in as plain strings.

use vstd::prelude::*;
use vstd::string::StringExecFns;

verus! {

/// The credentials the tracker client is handed: a base URL, a user name and
/// a secret token, opaque strings validated only by the transport.
pub struct TrackerCredentials {
    pub base_url: String,
    pub username: String,
    pub token: String,
}

/// An issue key together with its one-line summary.
#[derive(Debug)]
pub struct IssueSummary {
    pub issue_key: String,
    pub summary: String,
}

/// What can go wrong when talking to the tracker: the transport failed with
/// a message, or the response body did not decode to the expected JSON shape.
#[derive(Debug)]
pub enum TrackerError {
    Transport(String),
    Decode,
}

/// The string at `fields.summary` of the JSON document `body`, when `body`
/// is valid JSON and holds one; the result depends on the characters of
/// `body` alone.
pub uninterp spec fn summary_of_json(body: Seq<char>) -> Option<Seq<char>>;

/// Relies on serde_json::from_str and serde_json::Value::{get, as_str}: the
/// body parses as JSON with a string at `fields.summary` exactly when the
/// deterministic `summary_of_json` holds one, and that string is returned.
#[verifier::external_body]
fn json_fields_summary(body: &str) -> (r: Option<String>)
    ensures
        r is Some <==> summary_of_json(body@) is Some,
        r matches Some(s) ==> summary_of_json(body@) == Some(s@),
{
    let root: serde_json::Value = match serde_json::from_str(body) {
        Ok(v) => v,
        Err(_) => {
            return None;
        },
    };
    let summary = root.get("fields")?.get("summary")?.as_str()?;
    Some(summary.to_owned())
}

/// Pair a decoded summary with its issue key, or report the decode failure:
/// `Ok` exactly when a summary was decoded, and the error is then `Decode`.
pub fn summary_to_result(issue_key: &str, decoded: Option<String>) -> (r: Result<
    IssueSummary,
    TrackerError,
>)
    ensures
        decoded matches Some(s) ==> r matches Ok(v) && v.issue_key@ == issue_key@ && v.summary
            == s,
        decoded is None ==> (r matches Err(e) && e is Decode),
{
    match decoded {
        Some(s) => Ok(
            IssueSummary { issue_key: String::from_str(issue_key), summary: s },
        ),
        None => Err(TrackerError::Decode),
    }
}

/// Decode the JSON body returned for `issue_key`: the summary is the string
/// at `fields.summary`, and a body without one is a decode failure.
pub fn decode_issue_summary(issue_key: &str, body: &str) -> (r: Result<IssueSummary, TrackerError>)
    ensures
        summary_of_json(body@) matches Some(s) ==> r matches Ok(v) && v.issue_key@ == issue_key@
            && v.summary@ == s,
        summary_of_json(body@) is None ==> (r matches Err(e) && e is Decode),
{
    summary_to_result(issue_key, json_fields_summary(body))
}

/// The URL of the connectivity probe: the project-search endpoint under the
/// given base URL.
pub fn project_search_url(base_url: &str) -> (r: String)
    ensures
        r@ == base_url@ + "/rest/api/3/project/search"@,
{
    let mut url = String::from_str(base_url);
    url.append("/rest/api/3/project/search");
    url
}

/// The URL of the single-issue fetch for `issue_key` under the given base
/// URL.
pub fn issue_url(base_url: &str, issue_key: &str) -> (r: String)
    ensures
        r@ == base_url@ + "/rest/api/3/issue/"@ + issue_key@,
{
    let mut url = String::from_str(base_url);
    url.append("/rest/api/3/issue/");
    url.append(issue_key);
    url
}

/// What the connectivity probe makes of a successful response body: nothing.
/// The body is handed back exactly as the transport received it, with no
/// decoding applied.
pub fn connectivity_response(body: String) -> (r: String)
    ensures
        r@ == body@,
{
    body
}

/// The output line for a fetched summary: the issue key, one space, the
/// summary text.
pub fn summary_line(summary: &IssueSummary) -> (r: String)
    ensures
        r@ == summary.issue_key@ + " "@ + summary.summary@,
{
    let mut line = String::from_str(summary.issue_key.as_str());
    line.append(" ");
    line.append(summary.summary.as_str());
    line
}

} // verus!
