//! Response classification: every response ends as a success or a
//! failure, decided by the gRPC trailer when one is present, by the HTTP
//! status otherwise, and as a failure when the transport failed before a
//! response head was seen.
use vstd::prelude::*;

verus! {

#[derive(Clone, Copy, Debug, PartialEq, Eq, Structural)]
pub enum Classification {
    Success,
    Failure,
}

/// How one HTTP exchange ended: with a response head (and possibly a
/// `grpc-status` trailer), or with a transport failure before any head.
#[derive(Clone, Copy, Debug, PartialEq, Eq, Structural)]
pub enum ResponseEnd {
    Http { status: u16, grpc: Option<u32> },
    TransportFailure,
}

/// The synthesized status sentinel recorded for a transport failure.
pub const TRANSPORT_FAILURE_STATUS: u16 = 0;

/// A response classifies as a success iff its gRPC trailer is 0 when one
/// is present, or its HTTP status is below 500 when there is none; a
/// transport failure always classifies as a failure.
pub open spec fn classify_spec(end: ResponseEnd) -> Classification {
    match end {
        ResponseEnd::Http { status, grpc } => match grpc {
            Some(g) => if g == 0 {
                Classification::Success
            } else {
                Classification::Failure
            },
            None => if status < 500 {
                Classification::Success
            } else {
                Classification::Failure
            },
        },
        ResponseEnd::TransportFailure => Classification::Failure,
    }
}

/// The value of the `status_code` label for this response end.
pub open spec fn status_label(end: ResponseEnd) -> u16 {
    match end {
        ResponseEnd::Http { status, .. } => status,
        ResponseEnd::TransportFailure => TRANSPORT_FAILURE_STATUS,
    }
}

pub fn classify(end: &ResponseEnd) -> (c: Classification)
    ensures
        c == classify_spec(*end),
{
    match end {
        ResponseEnd::Http { status, grpc } => match grpc {
            Some(g) => if *g == 0 {
                Classification::Success
            } else {
                Classification::Failure
            },
            None => if *status < 500 {
                Classification::Success
            } else {
                Classification::Failure
            },
        },
        ResponseEnd::TransportFailure => Classification::Failure,
    }
}

pub fn status_of(end: &ResponseEnd) -> (s: u16)
    ensures
        s == status_label(*end),
{
    match end {
        ResponseEnd::Http { status, .. } => *status,
        ResponseEnd::TransportFailure => TRANSPORT_FAILURE_STATUS,
    }
}

} // verus!
