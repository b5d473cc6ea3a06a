//! Error types surfaced by the pipeline.

use vstd::prelude::*;

verus! {

/// An error of the semantic search pipeline, carrying a human-readable
/// message that names the failing operation and record.
#[derive(Debug, Clone)]
pub struct SemanticSearchError {
    pub message: String,
}

impl View for SemanticSearchError {
    type V = Seq<char>;

    open spec fn view(&self) -> Seq<char> {
        self.message@
    }
}

impl SemanticSearchError {
    pub fn new(message: String) -> (e: Self)
        ensures
            e@ == message@,
    {
        SemanticSearchError { message }
    }

    /// The message, for display at the boundary.
    pub fn describe(&self) -> (m: &String)
        ensures
            m@ == self@,
    {
        &self.message
    }
}

/// The structured error payload a provider returns on a non-success
/// status: a message, an error kind, and optional parameter and code
/// renderings.
#[derive(Debug, Clone)]
pub struct ApiError {
    pub message: String,
    pub kind: String,
    pub param: Option<String>,
    pub code: Option<String>,
}

/// An optional detail, or the word "none".
pub open spec fn detail_or_none(d: Option<Seq<char>>) -> Seq<char> {
    match d {
        Some(s) => s,
        None => "none"@,
    }
}

/// The message an API error is surfaced with.
pub open spec fn api_error_message(
    message: Seq<char>,
    kind: Seq<char>,
    param: Option<Seq<char>>,
    code: Option<Seq<char>>,
) -> Seq<char> {
    "Call to the provider failed with code: "@ + detail_or_none(code) + ", message: "@ + message
        + ", type: "@ + kind + ", param: "@ + detail_or_none(param)
}

impl ApiError {
    /// The rendering surfaced at the boundary: names the provider's code,
    /// message, kind and parameter.
    pub fn describe(&self) -> (m: String)
        ensures
            m@ == api_error_message(
                self.message@,
                self.kind@,
                match self.param {
                    Some(p) => Some(p@),
                    None => None,
                },
                match self.code {
                    Some(c) => Some(c@),
                    None => None,
                },
            ),
    {
        let mut m = String::from_str("Call to the provider failed with code: ");
        match &self.code {
            Some(c) => m.append(c.as_str()),
            None => m.append("none"),
        }
        m.append(", message: ");
        m.append(self.message.as_str());
        m.append(", type: ");
        m.append(self.kind.as_str());
        m.append(", param: ");
        match &self.param {
            Some(p) => m.append(p.as_str()),
            None => m.append("none"),
        }
        m
    }
}

} // verus!
