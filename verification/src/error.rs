//! Failures of requests, and how they are answered.

use vstd::prelude::*;
use vstd::string::StringExecFns;

use crate::ident::{id_text, write_id};
use crate::number::{decimal, write_decimal};
use crate::text::same_text;

verus! {

/// A request that cannot be served for a reason its sender can act on.
#[derive(Debug)]
pub enum RequestError {
    UnknownConnection(u128),
    UnknownDiscovery(u128),
    UnknownQueryCursor(u128),
    InvalidRequest(String),
    QueryExecutionFailed(String),
    RangeNotSatisfiable { size: u64, message: String },
}

/// What the sender of a failed request reads.
pub open spec fn request_message(error: RequestError) -> Seq<char> {
    match error {
        RequestError::UnknownConnection(id) => "connection "@ + id_text(id)
            + " was not found or has expired; reconnect the dataset"@,
        RequestError::UnknownDiscovery(id) => "dataset discovery "@ + id_text(id)
            + " was not found or has expired; rediscover the dataset"@,
        RequestError::UnknownQueryCursor(id) => "SQL cursor "@ + id_text(id)
            + " was not found or has expired; rerun the query"@,
        RequestError::InvalidRequest(message) => message@,
        RequestError::QueryExecutionFailed(cause) => "SQL execution failed; rerun the query: "@
            + cause@,
        RequestError::RangeNotSatisfiable { size, message } => message@,
    }
}

/// The status code of the answer to a failed request.
pub open spec fn request_status(error: RequestError) -> u16 {
    match error {
        RequestError::UnknownConnection(_) => 410,
        RequestError::UnknownDiscovery(_) => 410,
        RequestError::UnknownQueryCursor(_) => 404,
        RequestError::InvalidRequest(_) => 400,
        RequestError::QueryExecutionFailed(_) => 422,
        RequestError::RangeNotSatisfiable { .. } => 416,
    }
}

/// Joins three texts.
fn sentence(start: &str, middle: &str, end: &str) -> (text: String)
    ensures
        text@ == start@ + middle@ + end@,
{
    let mut text = String::new();
    text.append(start);
    text.append(middle);
    text.append(end);
    assert(text@ =~= start@ + middle@ + end@);
    text
}

impl RequestError {
    /// What the sender of the request reads.
    pub fn message(&self) -> (text: String)
        ensures
            text@ == request_message(*self),
    {
        match self {
            RequestError::UnknownConnection(id) => sentence(
                "connection ",
                write_id(*id).as_str(),
                " was not found or has expired; reconnect the dataset",
            ),
            RequestError::UnknownDiscovery(id) => sentence(
                "dataset discovery ",
                write_id(*id).as_str(),
                " was not found or has expired; rediscover the dataset",
            ),
            RequestError::UnknownQueryCursor(id) => sentence(
                "SQL cursor ",
                write_id(*id).as_str(),
                " was not found or has expired; rerun the query",
            ),
            RequestError::InvalidRequest(message) => message.clone(),
            RequestError::QueryExecutionFailed(cause) => {
                let mut text = String::new();
                text.append("SQL execution failed; rerun the query: ");
                text.append(cause.as_str());
                assert(text@ =~= request_message(*self));
                text
            },
            RequestError::RangeNotSatisfiable { size, message } => message.clone(),
        }
    }
}

/// A failure on its way to the client: the failed operation, the root cause,
/// and the request error where it is one.
#[derive(Debug)]
pub struct ApiError {
    pub request: Option<RequestError>,
    pub context: String,
    pub root_cause: String,
}

/// The answer to a failed request.
#[derive(Debug)]
pub struct ErrorResponse {
    pub status: u16,
    /// The header `Accept-Ranges`.
    pub accept_ranges: Option<String>,
    /// The header `Content-Range`.
    pub content_range: Option<String>,
    /// The text in the body.
    pub error: String,
}

/// The text that a client reads of an error: the operation that failed and the
/// root cause, once where they are the same.
pub open spec fn client_message(context: Seq<char>, root_cause: Seq<char>) -> Seq<char> {
    if context == root_cause {
        context
    } else {
        context + ": "@ + root_cause
    }
}

/// Formats an error for an API response without repeating every intermediate
/// error wrapper. The outer context explains the failed operation, while the
/// root cause contains the actionable detail.
pub fn client_error_message(context: &str, root_cause: &str) -> (message: String)
    ensures
        message@ == client_message(context@, root_cause@),
{
    if same_text(context, root_cause) {
        context.to_owned()
    } else {
        sentence(context, ": ", root_cause)
    }
}

impl ApiError {
    /// A request error, with nothing round it.
    pub fn from_request(error: RequestError) -> (failure: ApiError)
        ensures
            failure.request == Some(error),
            failure.context@ == request_message(error),
            failure.root_cause@ == request_message(error),
    {
        let message = error.message();
        ApiError { request: Some(error), context: message.clone(), root_cause: message }
    }

    /// A failure of the server's own: what it was doing, and why that failed.
    pub fn internal(context: &str, root_cause: &str) -> (failure: ApiError)
        ensures
            failure.is_internal(context@, root_cause@),
    {
        ApiError { request: None, context: context.to_owned(), root_cause: root_cause.to_owned() }
    }

    /// A failure of the server's own that needs no more than one sentence.
    pub fn plain(message: String) -> (failure: ApiError)
        ensures
            failure.is_plain(message@),
    {
        ApiError { request: None, context: message.clone(), root_cause: message }
    }

    /// Whether the failure is that a range of `size` bytes cannot be served, for
    /// the reason that `message` tells.
    pub open spec fn is_range_fault(&self, size: u64, message: Seq<char>) -> bool {
        &&& self.request matches Some(RequestError::RangeNotSatisfiable { size: found, message: text })
        &&& found == size
        &&& text@ == message
        &&& self.context@ == message
        &&& self.root_cause@ == message
    }

    /// Whether the failure is one of the server's own that `message` tells.
    pub open spec fn is_plain(&self, message: Seq<char>) -> bool {
        &&& self.request is None
        &&& self.context@ == message
        &&& self.root_cause@ == message
    }

    /// Whether the failure is one of the server's own: `root_cause` happened
    /// while it was doing what `context` says.
    pub open spec fn is_internal(&self, context: Seq<char>, root_cause: Seq<char>) -> bool {
        &&& self.request is None
        &&& self.context@ == context
        &&& self.root_cause@ == root_cause
    }

    /// The answer to the failed request. A range that cannot be served is
    /// answered with the size of what there is.
    pub fn into_response(self) -> (response: ErrorResponse)
        ensures
            response.error@ == client_message(self.context@, self.root_cause@),
            response.status == (match self.request {
                Some(error) => request_status(error),
                None => 500u16,
            }),
            (match self.request {
                Some(RequestError::RangeNotSatisfiable { size, message }) => {
                    &&& response.accept_ranges matches Some(unit) && unit@ == "bytes"@
                    &&& response.content_range matches Some(range) && range@ == "bytes */"@
                        + decimal(size as nat)
                },
                _ => response.accept_ranges is None && response.content_range is None,
            }),
    {
        let error = client_error_message(self.context.as_str(), self.root_cause.as_str());
        let mut accept_ranges: Option<String> = None;
        let mut content_range: Option<String> = None;
        let status: u16 = match &self.request {
            Some(RequestError::UnknownConnection(_)) => 410,
            Some(RequestError::UnknownDiscovery(_)) => 410,
            Some(RequestError::UnknownQueryCursor(_)) => 404,
            Some(RequestError::QueryExecutionFailed(_)) => 422,
            Some(RequestError::InvalidRequest(_)) => 400,
            Some(RequestError::RangeNotSatisfiable { size, message }) => {
                accept_ranges = Some("bytes".to_owned());
                let mut range = String::new();
                range.append("bytes */");
                range.append(write_decimal(*size).as_str());
                assert(range@ =~= "bytes */"@ + decimal(*size as nat));
                content_range = Some(range);
                416
            },
            None => 500,
        };
        ErrorResponse { status, accept_ranges, content_range, error }
    }
}

/// A request error is answered with its own text, once.
pub proof fn request_errors_read_once(error: RequestError)
    ensures
        client_message(request_message(error), request_message(error)) == request_message(error),
{
}

/// A failed request is answered with the status that tells what its sender can do
/// about it.
pub proof fn statuses_tell_what_to_do(error: RequestError)
    ensures
        request_status(error) == 410 <==> error is UnknownConnection || error is UnknownDiscovery,
        request_status(error) == 404 <==> error is UnknownQueryCursor,
        request_status(error) == 400 <==> error is InvalidRequest,
        request_status(error) == 422 <==> error is QueryExecutionFailed,
        request_status(error) == 416 <==> error is RangeNotSatisfiable,
{
}

/// The sender of a failed request reads what they asked for by its identifier, or
/// the reason that was given.
pub proof fn messages_tell_what_failed(id: u128, text: String, size: u64)
    ensures
        request_message(RequestError::UnknownConnection(id)) == "connection "@ + id_text(id)
            + " was not found or has expired; reconnect the dataset"@,
        request_message(RequestError::UnknownDiscovery(id)) == "dataset discovery "@ + id_text(id)
            + " was not found or has expired; rediscover the dataset"@,
        request_message(RequestError::UnknownQueryCursor(id)) == "SQL cursor "@ + id_text(id)
            + " was not found or has expired; rerun the query"@,
        request_message(RequestError::InvalidRequest(text)) == text@,
        request_message(RequestError::QueryExecutionFailed(text))
            == "SQL execution failed; rerun the query: "@ + text@,
        request_message((RequestError::RangeNotSatisfiable { size, message: text })) == text@,
{
}

/// A client reads what failed and then why, and a text once that tells both.
pub proof fn clients_read_what_failed_and_why(context: Seq<char>, root_cause: Seq<char>)
    ensures
        client_message(context, context) == context,
        context != root_cause ==> {
            let text = client_message(context, root_cause);
            &&& text.len() == context.len() + 2 + root_cause.len()
            &&& context.is_prefix_of(text)
            &&& root_cause.is_suffix_of(text)
            &&& text[context.len() as int] == ':'
            &&& text[context.len() as int + 1] == ' '
        },
{
    reveal_strlit(": ");
    if context != root_cause {
        let text = client_message(context, root_cause);
        assert(context =~= text.take(context.len() as int));
        assert(root_cause =~= text.skip(context.len() as int + 2));
        assert(text[context.len() as int] == ": "@[0]);
        assert(text[context.len() as int + 1] == ": "@[1]);
    }
}

/// A failure that one sentence tells is read as that sentence, and one of the
/// server's own work as what it was doing and why that failed.
pub proof fn failures_are_read_as_they_are_told(
    failure: ApiError,
    context: Seq<char>,
    root_cause: Seq<char>,
    size: u64,
)
    ensures
        failure.is_plain(context) ==> failure.request is None && client_message(
            failure.context@,
            failure.root_cause@,
        ) == context,
        failure.is_internal(context, root_cause) ==> failure.request is None && failure.context@
            == context && failure.root_cause@ == root_cause,
        failure.is_range_fault(size, context) ==> {
            &&& failure.request matches Some(error)
            &&& request_status(error) == 416
            &&& request_message(error) == context
            &&& client_message(failure.context@, failure.root_cause@) == context
        },
{
}

} // verus!
