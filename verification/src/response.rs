//! What a request gave back, as the interface shows it.

use vstd::prelude::*;

use crate::json::{serde_pretty, serde_pretty_text};

verus! {

#[derive(Clone, Debug)]
pub struct ResponseState {
    pub status: u16,
    pub status_text: String,
    pub duration: u64,
    pub headers: Vec<(String, String)>,
    pub body: String,
}

/// A body pretty-printed where serde_json reads it as JSON, and unchanged
/// otherwise.
pub open spec fn formatted_body(body: Seq<char>) -> Seq<char> {
    match serde_pretty(body) {
        Some(p) => p,
        None => body,
    }
}

pub fn format_json_body(body: &str) -> (r: String)
    ensures
        r@ == formatted_body(body@),
{
    match serde_pretty_text(body) {
        Some(p) => p,
        None => body.to_owned(),
    }
}

/// How a status is shown: a success (2xx), a redirection (3xx), a client or
/// server error (4xx, 5xx), or anything else (including the 0 of a request
/// that could not be sent).
#[derive(Clone, Copy, Debug, PartialEq, Eq, Structural)]
pub enum StatusKind {
    Success,
    Redirect,
    Failure,
    Other,
}

pub open spec fn status_kind_of(status: u16) -> StatusKind {
    if 200 <= status <= 299 {
        StatusKind::Success
    } else if 300 <= status <= 399 {
        StatusKind::Redirect
    } else if 400 <= status <= 599 {
        StatusKind::Failure
    } else {
        StatusKind::Other
    }
}

pub fn status_kind(status: u16) -> (k: StatusKind)
    ensures
        k == status_kind_of(status),
{
    match status {
        200..=299 => StatusKind::Success,
        300..=399 => StatusKind::Redirect,
        400..=599 => StatusKind::Failure,
        _ => StatusKind::Other,
    }
}

} // verus!
