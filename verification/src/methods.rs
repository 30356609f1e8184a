//! HTTP methods the bridge protocol uses.
//!
//! Only GET, PUT and POST may ever be sent to a bridge; restricting the enum
//! keeps undefined methods unrepresentable.

use vstd::prelude::*;

verus! {

/// The methods allowed on bridge endpoints.
#[derive(Debug, Clone, Copy, PartialEq, Eq, Structural)]
pub enum AllowedMethod {
    GET,
    PUT,
    POST,
}

/// An alternative spelling of the allowed methods kept for callers of the
/// request-oriented API.
#[derive(Debug, Clone, Copy, PartialEq, Eq, Structural)]
pub enum RequestType {
    Get,
    Put,
    Post,
}

impl From<RequestType> for AllowedMethod {
    /// Maps each request type to the method that is sent on the wire.
    fn from(value: RequestType) -> (r: AllowedMethod) {
        match value {
            RequestType::Get => AllowedMethod::GET,
            RequestType::Put => AllowedMethod::PUT,
            RequestType::Post => AllowedMethod::POST,
        }
    }
}

impl vstd::std_specs::convert::FromSpecImpl<RequestType> for AllowedMethod {
    open spec fn obeys_from_spec() -> bool {
        true
    }

    open spec fn from_spec(value: RequestType) -> AllowedMethod {
        match value {
            RequestType::Get => AllowedMethod::GET,
            RequestType::Put => AllowedMethod::PUT,
            RequestType::Post => AllowedMethod::POST,
        }
    }
}

} // verus!
