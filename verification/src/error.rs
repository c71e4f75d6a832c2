//! GraphQL errors as they appear in the `errors` list of a response.

use vstd::prelude::*;
use crate::ResponseEdge;
use crate::json::{Jx, JsonValue};

verus! {

/// Position of a token in the source text of the operation, 1-based.
#[derive(Clone, Copy, PartialEq, Eq, Structural, Debug)]
pub struct Location {
    pub line: u32,
    pub column: u32,
}

/// A path from the response root to the value an error is attached to.
pub type ResponsePath = Vec<ResponseEdge>;

/// Machine-readable error classification, carried in `extensions.code`.
#[derive(Clone, Copy, PartialEq, Eq, Structural, Debug)]
pub enum ErrorCode {
    BadRequest,
    InternalServerError,
}

impl ErrorCode {
    /// The wire spelling of the code: the taxonomy name itself.
    pub open spec fn spec_text(self) -> Seq<char> {
        match self {
            ErrorCode::BadRequest => "BadRequest"@,
            ErrorCode::InternalServerError => "InternalServerError"@,
        }
    }

    pub fn text(self) -> (r: &'static str)
        ensures
            r@ == self.spec_text(),
    {
        match self {
            ErrorCode::BadRequest => "BadRequest",
            ErrorCode::InternalServerError => "InternalServerError",
        }
    }
}

/// One entry of a response's `errors` list. Extensions are an ordered list of
/// key/value pairs, serialized in insertion order.
#[derive(Debug)]
pub struct GraphqlError {
    pub message: String,
    pub locations: Vec<Location>,
    pub path: Option<ResponsePath>,
    pub extensions: Vec<(String, JsonValue)>,
}

impl GraphqlError {
    /// An error with only a message: no locations, no path, no extensions.
    pub fn new(message: String) -> (r: GraphqlError)
        ensures
            r.message == message,
            r.locations@ == Seq::<Location>::empty(),
            r.path is None,
            r.extensions@ == Seq::<(String, JsonValue)>::empty(),
    {
        GraphqlError { message, locations: Vec::new(), path: None, extensions: Vec::new() }
    }

    /// The same error with `extensions.code` appended.
    pub fn with_error_code(self, code: ErrorCode) -> (r: GraphqlError)
        ensures
            r.message == self.message,
            r.locations == self.locations,
            r.path == self.path,
            r.extensions@.len() == self.extensions@.len() + 1,
            r.extensions@.subrange(0, self.extensions@.len() as int) == self.extensions@,
            r.extensions@.last().0@ == "code"@,
            r.extensions@.last().1@ == Jx::Str(code.spec_text()),
    {
        let mut extensions = self.extensions;
        let code_value = JsonValue::Str(code.text().to_owned());
        extensions.push(("code".to_owned(), code_value));
        let r = GraphqlError {
            message: self.message,
            locations: self.locations,
            path: self.path,
            extensions,
        };
        proof {
            assert(r.extensions@.subrange(0, r.extensions@.len() - 1) =~= self.extensions@);
        }
        r
    }

    /// The generic error surfaced when an executor hits an internal invariant
    /// violation; diagnostics are never leaked.
    pub fn internal_server_error() -> (r: GraphqlError)
        ensures
            r.message@ == "Internal server error"@,
            r.locations@ == Seq::<Location>::empty(),
            r.path is None,
            r.extensions@.len() == 1,
            r.extensions@[0].0@ == "code"@,
            r.extensions@[0].1@ == Jx::Str(ErrorCode::InternalServerError.spec_text()),
    {
        GraphqlError::new("Internal server error".to_owned()).with_error_code(
            ErrorCode::InternalServerError,
        )
    }
}

} // verus!
