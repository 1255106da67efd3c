//! How a client reads a failed response.
use vstd::prelude::*;

verus! {

/// A failed request as the client sees it.
#[derive(Debug, Clone, Copy, PartialEq, Eq, Structural)]
pub enum ApiError {
    Timeout,
    Unauthorized,
    BadRequest,
    ResponseParseFailure,
    /// Any other status, kept as its code.
    Other { status: u16 },
}

pub open spec fn api_error_of(status: u16) -> ApiError {
    if status == 504 || status == 408 {
        ApiError::Timeout
    } else if status == 401 || status == 403 {
        ApiError::Unauthorized
    } else if status == 400 {
        ApiError::BadRequest
    } else {
        ApiError::Other { status }
    }
}

impl ApiError {
    /// The error that a response with HTTP status `status` reports.
    pub fn from_status(status: u16) -> (r: ApiError)
        ensures
            r == api_error_of(status),
    {
        if status == 504 || status == 408 {
            ApiError::Timeout
        } else if status == 401 || status == 403 {
            ApiError::Unauthorized
        } else if status == 400 {
            ApiError::BadRequest
        } else {
            ApiError::Other { status }
        }
    }
}

} // verus!
