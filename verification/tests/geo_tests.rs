use proxy_scan::addr::{Endpoint, IpAddress};
use proxy_scan::geo::{evaluate_reply, GeoReply, Outcome};

fn endpoint() -> Endpoint {
    Endpoint { ip: IpAddress::V4((203 << 24) | (113 << 8) | 5), port: 7890 }
}

#[test]
fn success_reply_makes_a_working_proxy() {
    let reply = GeoReply {
        status: "success".to_string(),
        country: Some("France".to_string()),
        city: Some("Paris".to_string()),
        message: None,
    };
    match evaluate_reply(endpoint(), 50, reply) {
        Outcome::Success(r) => {
            assert_eq!(r.ip, endpoint().ip);
            assert_eq!(r.response_time_ms, 50);
            assert_eq!(r.location, "Paris, France");
        },
        Outcome::Failure(_, _) => panic!("a success reply must verify the proxy"),
    }
}

#[test]
fn omitted_location_parts_become_unknown() {
    let reply = GeoReply {
        status: "success".to_string(),
        country: None,
        city: None,
        message: None,
    };
    match evaluate_reply(endpoint(), 7, reply) {
        Outcome::Success(r) => assert_eq!(r.location, "Unknown, Unknown"),
        Outcome::Failure(_, _) => panic!("a success reply must verify the proxy"),
    }
}

#[test]
fn fail_reply_carries_the_service_message() {
    let reply = GeoReply {
        status: "fail".to_string(),
        country: None,
        city: None,
        message: Some("invalid query".to_string()),
    };
    match evaluate_reply(endpoint(), 12, reply) {
        Outcome::Failure(e, reason) => {
            assert_eq!(e, endpoint());
            assert_eq!(reason, "Geo API error: invalid query");
        },
        Outcome::Success(_) => panic!("a fail reply must reject the proxy"),
    }
}

#[test]
fn fail_reply_without_message_reports_api_error() {
    let reply = GeoReply {
        status: "fail".to_string(),
        country: Some("France".to_string()),
        city: None,
        message: None,
    };
    match evaluate_reply(endpoint(), 12, reply) {
        Outcome::Failure(_, reason) => assert_eq!(reason, "Geo API error: API error"),
        Outcome::Success(_) => panic!("a fail reply must reject the proxy"),
    }
}
