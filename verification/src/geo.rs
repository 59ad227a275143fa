//! Verification outcomes, and the reading of a geolocation reply.
//!
//! A verification unit routes one request through a candidate proxy
//! and hands the service's reply here as plain values.  A reply whose
//! status is `"success"` makes the candidate a working proxy; any
//! other status is a failure carrying the service's message.

use vstd::prelude::*;

use crate::addr::{Endpoint, IpAddress};

verus! {

/// What the geolocation service reported for one proxied request,
/// reduced to plain values.
pub struct GeoReply {
    pub status: String,
    pub country: Option<String>,
    pub city: Option<String>,
    pub message: Option<String>,
}

/// One working proxy: its address, the measured round trip in whole
/// milliseconds, and the resolved location.
#[derive(Debug, Clone, PartialEq, Eq)]
pub struct ProxyResult {
    pub ip: IpAddress,
    pub response_time_ms: u128,
    pub location: String,
}

/// The outcome of one verification unit: a working proxy, or the
/// candidate together with the reason it was rejected.
#[derive(Debug, Clone, PartialEq, Eq)]
pub enum Outcome {
    Success(ProxyResult),
    Failure(Endpoint, String),
}

/// A location part, or `"Unknown"` when the service omitted it.
pub open spec fn name_or_unknown(part: Option<String>) -> Seq<char> {
    match part {
        Some(p) => p@,
        None => "Unknown"@,
    }
}

/// `"city, country"`, with `"Unknown"` for an omitted part.
pub open spec fn spec_location(city: Option<String>, country: Option<String>) -> Seq<char> {
    name_or_unknown(city) + ", "@ + name_or_unknown(country)
}

/// The reason reported when the service's status is not `"success"`:
/// its message, or `"API error"` when it gave none.
pub open spec fn spec_geo_reason(message: Option<String>) -> Seq<char> {
    "Geo API error: "@ + (match message {
        Some(m) => m@,
        None => "API error"@,
    })
}

/// Reads one reply: a `"success"` status yields a working proxy with
/// the measured time and the resolved location; any other status
/// yields a failure carrying the service's reason.
pub fn evaluate_reply(e: Endpoint, elapsed_ms: u128, reply: GeoReply) -> (o: Outcome)
    ensures
        reply.status@ == "success"@ ==> (o matches Outcome::Success(r) && r.ip == e.ip
            && r.response_time_ms == elapsed_ms && r.location@ == spec_location(
            reply.city,
            reply.country,
        )),
        reply.status@ != "success"@ ==> (o matches Outcome::Failure(ep, reason) && ep == e
            && reason@ == spec_geo_reason(reply.message)),
{
    let success_word = String::from_str("success");
    if reply.status == success_word {
        let mut location = match reply.city {
            Some(c) => c,
            None => String::from_str("Unknown"),
        };
        location.append(", ");
        let country = match reply.country {
            Some(c) => c,
            None => String::from_str("Unknown"),
        };
        location.append(country.as_str());
        Outcome::Success(ProxyResult { ip: e.ip, response_time_ms: elapsed_ms, location })
    } else {
        let mut reason = String::from_str("Geo API error: ");
        let msg = match reply.message {
            Some(m) => m,
            None => String::from_str("API error"),
        };
        reason.append(msg.as_str());
        Outcome::Failure(e, reason)
    }
}

} // verus!
