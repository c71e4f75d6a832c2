//! The GraphQL outcome of one request or upstream call, as recorded on
//! telemetry spans.

use vstd::prelude::*;

verus! {

/// Status of a GraphQL response: no errors, field errors alongside data, or
/// only errors with no data at all.
#[derive(Clone, Copy, PartialEq, Eq, Structural, Debug)]
pub enum GraphqlResponseStatus {
    Success,
    FieldError { count: u64, data_is_null: bool },
    RequestError { count: u64 },
}

impl GraphqlResponseStatus {
    pub open spec fn is_success(self) -> bool {
        self is Success
    }
}

/// Attributes recorded for a GraphQL request.
#[derive(PartialEq, Eq, Debug)]
pub struct GqlRequestAttributes {
    pub operation_type: &'static str,
    pub operation_name: Option<String>,
}

/// Attributes recorded for a GraphQL response.
#[derive(Clone, Copy, PartialEq, Eq, Structural, Debug)]
pub struct GqlResponseAttributes {
    pub status: GraphqlResponseStatus,
}

/// A recorder of GraphQL request and response attributes. The library drives
/// it; the caller decides where the attributes go (a tracing span, a metrics
/// pipeline, a log).
pub trait GqlRecorderSpanExt {
    fn record_gql_request(&mut self, attributes: GqlRequestAttributes);

    fn record_gql_response(&mut self, attributes: GqlResponseAttributes);

    fn record_gql_status(&mut self, status: GraphqlResponseStatus) {
        self.record_gql_response(GqlResponseAttributes { status })
    }

    fn record_field_errors(&mut self, count: u64, data_is_null: bool)
        requires
            count > 0,
    {
        self.record_gql_response(
            GqlResponseAttributes { status: GraphqlResponseStatus::FieldError { count, data_is_null } },
        )
    }

    fn record_request_errors(&mut self, count: u64)
        requires
            count > 0,
    {
        self.record_gql_response(
            GqlResponseAttributes { status: GraphqlResponseStatus::RequestError { count } },
        )
    }
}

/// A recorder of resolver invocation outcomes.
pub trait ResolverInvocationRecorderSpanExt {
    fn record_failure(&mut self, error: &str);
}

/// A recorder that simply keeps the last recorded attributes.
pub struct StatusRecorder {
    pub last_request: Option<GqlRequestAttributes>,
    pub last_response: Option<GqlResponseAttributes>,
}

impl StatusRecorder {
    pub fn new() -> (r: StatusRecorder)
        ensures
            r.last_request is None,
            r.last_response is None,
    {
        StatusRecorder { last_request: None, last_response: None }
    }
}

impl GqlRecorderSpanExt for StatusRecorder {
    fn record_gql_request(&mut self, attributes: GqlRequestAttributes)
        ensures
            final(self).last_request == Some(attributes),
            final(self).last_response == old(self).last_response,
    {
        self.last_request = Some(attributes);
    }

    fn record_gql_response(&mut self, attributes: GqlResponseAttributes)
        ensures
            final(self).last_response == Some(attributes),
            final(self).last_request == old(self).last_request,
    {
        self.last_response = Some(attributes);
    }
}

} // verus!
