pub mod bytes_util;
pub mod config;
pub mod encode;
pub mod forward;
pub mod json;
pub mod metrics;
pub mod webhook;

use vstd::prelude::*;

verus! {

/// Classification of a transport-level failure while contacting an origin.
#[derive(Clone, Copy, PartialEq, Eq, Structural, Debug)]
pub enum ErrorKind {
    Timeout,
    Connection,
    Dns,
    Other,
}

/// Classifies a failed origin call from the two flags the transport reports,
/// checked in the same order the proxy checks them: a timeout wins over a
/// connection failure, and anything else is `Other`.
pub fn classify_transport_error(is_timeout: bool, is_connect: bool) -> (r: ErrorKind)
    ensures
        is_timeout ==> r == ErrorKind::Timeout,
        !is_timeout && is_connect ==> r == ErrorKind::Connection,
        !is_timeout && !is_connect ==> r == ErrorKind::Other,
{
    if is_timeout {
        ErrorKind::Timeout
    } else if is_connect {
        ErrorKind::Connection
    } else {
        ErrorKind::Other
    }
}

} // verus!
