//! The answers the proxy writes itself when it cannot forward a request.
use vstd::prelude::*;
use crate::routing::RouteDecision;
use crate::request::RequestParser;
use crate::parser::ResponseParser;

verus! {

#[derive(Clone, Copy, PartialEq, Eq, Debug)]
pub enum DefaultAnswer {
    /// A request that could not be parsed.
    BadRequest,
    /// No front serves the request.
    NotFound,
    /// The backend could not be reached or sent a malformed response.
    BadGateway,
    /// The application has no live backend.
    ServiceUnavailable,
}

/// The bytes written for each answer.
pub open spec fn answer_spec(a: DefaultAnswer) -> Seq<u8> {
    match a {
        DefaultAnswer::BadRequest => seq![72u8, 84, 84, 80, 47, 49, 46, 49, 32, 52, 48, 48, 32, 66, 97, 100, 32, 82, 101, 113, 117, 101, 115, 116, 13, 10, 67, 97, 99, 104, 101, 45, 67, 111, 110, 116, 114, 111, 108, 58, 32, 110, 111, 45, 99, 97, 99, 104, 101, 13, 10, 67, 111, 110, 110, 101, 99, 116, 105, 111, 110, 58, 32, 99, 108, 111, 115, 101, 13, 10, 13, 10],
        DefaultAnswer::NotFound => seq![72u8, 84, 84, 80, 47, 49, 46, 49, 32, 52, 48, 52, 32, 78, 111, 116, 32, 70, 111, 117, 110, 100, 13, 10, 67, 97, 99, 104, 101, 45, 67, 111, 110, 116, 114, 111, 108, 58, 32, 110, 111, 45, 99, 97, 99, 104, 101, 13, 10, 67, 111, 110, 110, 101, 99, 116, 105, 111, 110, 58, 32, 99, 108, 111, 115, 101, 13, 10, 13, 10],
        DefaultAnswer::BadGateway => seq![72u8, 84, 84, 80, 47, 49, 46, 49, 32, 53, 48, 50, 32, 66, 97, 100, 32, 71, 97, 116, 101, 119, 97, 121, 13, 10, 67, 97, 99, 104, 101, 45, 67, 111, 110, 116, 114, 111, 108, 58, 32, 110, 111, 45, 99, 97, 99, 104, 101, 13, 10, 67, 111, 110, 110, 101, 99, 116, 105, 111, 110, 58, 32, 99, 108, 111, 115, 101, 13, 10, 13, 10],
        DefaultAnswer::ServiceUnavailable => seq![72u8, 84, 84, 80, 47, 49, 46, 49, 32, 53, 48, 51, 32, 83, 101, 114, 118, 105, 99, 101, 32, 85, 110, 97, 118, 97, 105, 108, 97, 98, 108, 101, 13, 10, 67, 97, 99, 104, 101, 45, 67, 111, 110, 116, 114, 111, 108, 58, 32, 110, 111, 45, 99, 97, 99, 104, 101, 13, 10, 67, 111, 110, 110, 101, 99, 116, 105, 111, 110, 58, 32, 99, 108, 111, 115, 101, 13, 10, 13, 10],
    }
}

pub fn answer_bytes(a: DefaultAnswer) -> (r: Vec<u8>)
    ensures
        r@ == answer_spec(a),
{
    match a {
        DefaultAnswer::BadRequest => {
            let v: Vec<u8> = vec![72, 84, 84, 80, 47, 49, 46, 49, 32, 52, 48, 48, 32, 66, 97, 100, 32, 82, 101, 113, 117, 101, 115, 116, 13, 10, 67, 97, 99, 104, 101, 45, 67, 111, 110, 116, 114, 111, 108, 58, 32, 110, 111, 45, 99, 97, 99, 104, 101, 13, 10, 67, 111, 110, 110, 101, 99, 116, 105, 111, 110, 58, 32, 99, 108, 111, 115, 101, 13, 10, 13, 10];
            assert(v@ =~= answer_spec(a));
            v
        },
        DefaultAnswer::NotFound => {
            let v: Vec<u8> = vec![72, 84, 84, 80, 47, 49, 46, 49, 32, 52, 48, 52, 32, 78, 111, 116, 32, 70, 111, 117, 110, 100, 13, 10, 67, 97, 99, 104, 101, 45, 67, 111, 110, 116, 114, 111, 108, 58, 32, 110, 111, 45, 99, 97, 99, 104, 101, 13, 10, 67, 111, 110, 110, 101, 99, 116, 105, 111, 110, 58, 32, 99, 108, 111, 115, 101, 13, 10, 13, 10];
            assert(v@ =~= answer_spec(a));
            v
        },
        DefaultAnswer::BadGateway => {
            let v: Vec<u8> = vec![72, 84, 84, 80, 47, 49, 46, 49, 32, 53, 48, 50, 32, 66, 97, 100, 32, 71, 97, 116, 101, 119, 97, 121, 13, 10, 67, 97, 99, 104, 101, 45, 67, 111, 110, 116, 114, 111, 108, 58, 32, 110, 111, 45, 99, 97, 99, 104, 101, 13, 10, 67, 111, 110, 110, 101, 99, 116, 105, 111, 110, 58, 32, 99, 108, 111, 115, 101, 13, 10, 13, 10];
            assert(v@ =~= answer_spec(a));
            v
        },
        DefaultAnswer::ServiceUnavailable => {
            let v: Vec<u8> = vec![72, 84, 84, 80, 47, 49, 46, 49, 32, 53, 48, 51, 32, 83, 101, 114, 118, 105, 99, 101, 32, 85, 110, 97, 118, 97, 105, 108, 97, 98, 108, 101, 13, 10, 67, 97, 99, 104, 101, 45, 67, 111, 110, 116, 114, 111, 108, 58, 32, 110, 111, 45, 99, 97, 99, 104, 101, 13, 10, 67, 111, 110, 110, 101, 99, 116, 105, 111, 110, 58, 32, 99, 108, 111, 115, 101, 13, 10, 13, 10];
            assert(v@ =~= answer_spec(a));
            v
        },
    }
}

/// The answer owed for a routing decision: none when the request is forwarded.
pub fn answer_for_route(d: &RouteDecision) -> (r: Option<DefaultAnswer>)
    ensures
        r == match d {
            RouteDecision::NotFound => Some(DefaultAnswer::NotFound),
            RouteDecision::Unavailable => Some(DefaultAnswer::ServiceUnavailable),
            RouteDecision::Forward(_, _) => None::<DefaultAnswer>,
        },
{
    match d {
        RouteDecision::NotFound => Some(DefaultAnswer::NotFound),
        RouteDecision::Unavailable => Some(DefaultAnswer::ServiceUnavailable),
        RouteDecision::Forward(_, _) => None,
    }
}

/// A request head that failed to parse is answered with 400.
pub fn answer_for_request(p: &RequestParser) -> (r: Option<DefaultAnswer>)
    ensures
        r == (if p@.is_error() { Some(DefaultAnswer::BadRequest) } else { None::<DefaultAnswer> }),
{
    if p.is_error() {
        Some(DefaultAnswer::BadRequest)
    } else {
        None
    }
}

/// A response head that failed to parse is answered with 502 once the backend is closed.
pub fn answer_for_response(p: &ResponseParser) -> (r: Option<DefaultAnswer>)
    ensures
        r == (if p@.is_error() { Some(DefaultAnswer::BadGateway) } else { None::<DefaultAnswer> }),
{
    if p.is_error() {
        Some(DefaultAnswer::BadGateway)
    } else {
        None
    }
}

} // verus!
