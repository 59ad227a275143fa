use proxy_scan::addr::{Endpoint, IpAddress};
use proxy_scan::geo::{Outcome, ProxyResult};
use proxy_scan::pipeline::{Aggregator, Bucket, Completion};
use proxy_scan::report::sort_results;

fn ep(last: u32, port: u16) -> Endpoint {
    Endpoint { ip: IpAddress::V4((198 << 24) | (51 << 16) | (100 << 8) | last), port }
}

fn success(last: u32, ms: u128, location: &str) -> Completion {
    Completion::Finished(Outcome::Success(ProxyResult {
        ip: ep(last, 7890).ip,
        response_time_ms: ms,
        location: location.to_string(),
    }))
}

#[test]
fn empty_run_reports_nothing() {
    let mut agg = Aggregator::new();
    agg.close_source();
    assert!(agg.is_finished());
    assert!(!agg.has_results());
    let report = agg.finish();
    assert!(report.is_empty());
}

#[test]
fn results_arrive_in_completion_order_and_leave_sorted() {
    let mut agg = Aggregator::new();
    agg.accept(ep(1, 7890));
    agg.accept(ep(2, 7890));
    agg.accept(ep(3, 7890));
    agg.accept(ep(4, 7890));
    agg.close_source();
    assert!(!agg.is_finished());

    // Completions come back in an order unrelated to submission.
    agg.complete(success(3, 80, "Paris, France"));
    agg.complete(Completion::Finished(Outcome::Failure(
        ep(1, 7890),
        "Geo API error: API error".to_string(),
    )));
    agg.complete(success(4, 30, "Berlin, Germany"));
    agg.complete(Completion::Fault("task failed".to_string()));
    assert!(agg.is_finished());
    assert!(agg.has_results());

    let report = agg.finish();
    assert_eq!(report.len(), 2);
    assert_eq!(report[0].response_time_ms, 30);
    assert_eq!(report[0].location, "Berlin, Germany");
    assert_eq!(report[1].response_time_ms, 80);
    assert_eq!(report[1].location, "Paris, France");
}

#[test]
fn completions_fall_in_their_buckets() {
    let mut agg = Aggregator::new();
    agg.accept(ep(1, 7890));
    agg.accept(ep(2, 7890));
    agg.accept(ep(3, 7890));
    agg.close_source();

    let ev = agg.complete(success(1, 9, "Paris, France"));
    match ev {
        Bucket::Success(r) => {
            assert_eq!(r.response_time_ms, 9);
            assert_eq!(r.location, "Paris, France");
        },
        _ => panic!("a finished success belongs in the success bucket"),
    }
    let ev = agg.complete(Completion::Finished(Outcome::Failure(
        ep(2, 7890),
        "Geo API error: timeout".to_string(),
    )));
    assert_eq!(
        ev,
        Bucket::Failure(ep(2, 7890), "Geo API error: timeout".to_string())
    );
    let ev = agg.complete(Completion::Fault("cancelled".to_string()));
    assert_eq!(ev, Bucket::Fault("cancelled".to_string()));

    let report = agg.finish();
    assert_eq!(report.len(), 1);
}

#[test]
fn rerun_with_fixed_outcomes_gives_identical_report() {
    // The same candidates, completed in two different orders.
    let orders: Vec<Vec<u32>> = vec![vec![1, 2, 3], vec![3, 1, 2]];
    let mut reports = Vec::new();
    for order in orders {
        let mut agg = Aggregator::new();
        agg.accept(ep(1, 7890));
        agg.accept(ep(2, 7890));
        agg.accept(ep(3, 7890));
        agg.close_source();
        for last in order {
            // The stub verifier: a fixed outcome for each endpoint.
            let ms = (last as u128) * 10;
            agg.complete(success(last, ms, "Paris, France"));
        }
        reports.push(agg.finish());
    }
    assert_eq!(reports[0], reports[1]);
}

#[test]
fn sort_is_stable_on_ties() {
    let a = ProxyResult { ip: IpAddress::V4(1), response_time_ms: 50, location: "A".to_string() };
    let b = ProxyResult { ip: IpAddress::V4(2), response_time_ms: 20, location: "B".to_string() };
    let c = ProxyResult { ip: IpAddress::V4(3), response_time_ms: 50, location: "C".to_string() };
    let sorted = sort_results(vec![a.clone(), b.clone(), c.clone()]);
    assert_eq!(sorted, vec![b, a, c]);
}

#[test]
fn sort_orders_by_response_time() {
    let mk = |ip: u32, ms: u128| ProxyResult {
        ip: IpAddress::V4(ip),
        response_time_ms: ms,
        location: "X".to_string(),
    };
    let sorted = sort_results(vec![mk(1, 300), mk(2, 5), mk(3, 70)]);
    let times: Vec<u128> = sorted.iter().map(|r| r.response_time_ms).collect();
    assert_eq!(times, vec![5, 70, 300]);
}
