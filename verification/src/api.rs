//! The plain data shapes of the HTTP façade.  The façade itself (routing,
//! JSON, status codes) lives outside the library; these are the bodies it
//! exchanges, with the one computation they carry: turning a request's TTL
//! seconds into the milliseconds the cluster counts time in.

use vstd::prelude::*;

verus! {

/// A SET request body: the value text and an optional TTL in seconds.
pub struct SetRequest {
    pub value: String,
    pub ttl_seconds: Option<u64>,
}

/// A successful GET response body.
pub struct GetResponse {
    pub value: String,
}

/// The outcome shape the other responses share.
pub struct ApiResponse {
    pub success: bool,
    pub message: String,
}

/// Seconds turned into milliseconds, saturating at the far end of time.
pub open spec fn secs_to_millis(s: u64) -> u64 {
    if s * 1000 <= u64::MAX {
        (s * 1000) as u64
    } else {
        u64::MAX
    }
}

impl SetRequest {
    /// The request's TTL in milliseconds, as the cluster takes it.
    pub fn ttl_millis(&self) -> (r: Option<u64>)
        ensures
            r == match self.ttl_seconds {
                Some(s) => Some(secs_to_millis(s)),
                None => None::<u64>,
            },
    {
        match self.ttl_seconds {
            Some(s) => Some(
                if s <= u64::MAX / 1000 {
                    s * 1000
                } else {
                    u64::MAX
                },
            ),
            None => None,
        }
    }
}

} // verus!
