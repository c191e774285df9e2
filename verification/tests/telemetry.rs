//! End-to-end exercises of the telemetry core: hooks fire as a proxy's
//! forwarding stack would fire them, and the scrape output is held to
//! the exact lines a collector would see.
use telemetry_core::classify::ResponseEnd;
use telemetry_core::labels::{Direction, DstLabels, DstPair, LabelName, LabelValue, Peer, TlsStatus};
use telemetry_core::render::{render, render_body};
use telemetry_core::telemetry::Telemetry;

fn bytes(s: &str) -> Vec<u8> {
    s.as_bytes().to_vec()
}

fn value(s: &str) -> LabelValue {
    LabelValue::new(bytes(s)).expect("valid label value")
}

fn lname(s: &str) -> LabelName {
    LabelName::new(bytes(s)).expect("valid label name")
}

fn scrape(t: &Telemetry) -> String {
    String::from_utf8(render_body(t)).expect("scrape is utf-8")
}

fn tls_disabled() -> TlsStatus {
    TlsStatus::Disabled
}

fn tls_no_id(reason: &str) -> TlsStatus {
    TlsStatus::NoIdentity { reason: Some(value(reason)) }
}

fn dst_pairs(pairs: &[(&str, &str)]) -> Vec<DstPair> {
    pairs
        .iter()
        .map(|(n, v)| DstPair { name: lname(n), value: value(v) })
        .collect()
}

/// One HTTP exchange through the proxy: capture labels, count the
/// request, then count its response.
fn http_exchange(
    t: &mut Telemetry,
    authority: &str,
    direction: Direction,
    tls: &TlsStatus,
    dst_addr: Option<&Vec<u8>>,
    status: u16,
    latency_ms: u64,
) {
    let labels = t.begin_request(&value(authority), direction, tls, dst_addr);
    t.on_request(&labels);
    t.on_response_end(&labels, &ResponseEnd::Http { status, grpc: None }, latency_ms);
}

#[test]
fn metrics_endpoint_inbound_request_count() {
    let mut t = Telemetry::new(1);
    // prior to seeing any requests, request count should be empty.
    assert!(!scrape(&t).contains(
        "request_total{authority=\"tele.test.svc.cluster.local\",direction=\"inbound\",tls=\"disabled\"}"
    ));
    http_exchange(
        &mut t,
        "tele.test.svc.cluster.local",
        Direction::Inbound,
        &tls_disabled(),
        None,
        200,
        1,
    );
    // after seeing a request, the request count should be 1.
    assert!(scrape(&t).contains(
        "request_total{authority=\"tele.test.svc.cluster.local\",direction=\"inbound\",tls=\"disabled\"} 1"
    ));
}

#[test]
fn metrics_endpoint_outbound_request_count() {
    let mut t = Telemetry::new(1);
    assert!(!scrape(&t).contains(
        "request_total{authority=\"tele.test.svc.cluster.local\",direction=\"outbound\",tls=\"no_identity\",no_tls_reason=\"not_provided_by_service_discovery\"}"
    ));
    http_exchange(
        &mut t,
        "tele.test.svc.cluster.local",
        Direction::Outbound,
        &tls_no_id("not_provided_by_service_discovery"),
        None,
        200,
        1,
    );
    assert!(scrape(&t).contains(
        "request_total{authority=\"tele.test.svc.cluster.local\",direction=\"outbound\",tls=\"no_identity\",no_tls_reason=\"not_provided_by_service_discovery\"} 1"
    ));
}

const STATUSES: [u16; 6] = [200, 304, 400, 418, 504, 500];

fn expected_metric(status: u16, direction: &str, tls: &str, no_tls_reason: Option<&str>) -> String {
    format!(
        "response_total{{authority=\"tele.test.svc.cluster.local\",direction=\"{}\",tls=\"{}\",{}status_code=\"{}\",classification=\"{}\"}} 1",
        direction,
        tls,
        if let Some(reason) = no_tls_reason {
            format!("no_tls_reason=\"{}\",", reason)
        } else {
            String::new()
        },
        status,
        if status >= 500 { "failure" } else { "success" },
    )
}

#[test]
fn inbound_http() {
    let mut t = Telemetry::new(1);
    for (i, status) in STATUSES.iter().enumerate() {
        http_exchange(
            &mut t,
            "tele.test.svc.cluster.local",
            Direction::Inbound,
            &tls_disabled(),
            None,
            *status,
            1,
        );
        for status in &STATUSES[0..i] {
            // the current status code is incremented, *and* all
            // previous statuses still stand at 1.
            assert!(scrape(&t).contains(&expected_metric(*status, "inbound", "disabled", None)));
        }
    }
}

#[test]
fn outbound_http() {
    let mut t = Telemetry::new(1);
    for (i, status) in STATUSES.iter().enumerate() {
        http_exchange(
            &mut t,
            "tele.test.svc.cluster.local",
            Direction::Outbound,
            &tls_no_id("not_provided_by_service_discovery"),
            None,
            *status,
            1,
        );
        for status in &STATUSES[0..i] {
            assert!(scrape(&t).contains(&expected_metric(
                *status,
                "outbound",
                "no_identity",
                Some("not_provided_by_service_discovery")
            )));
        }
    }
}

#[test]
fn metrics_endpoint_inbound_response_latency() {
    let mut t = Telemetry::new(1);
    let auth = "tele.test.svc.cluster.local";
    http_exchange(&mut t, auth, Direction::Inbound, &tls_disabled(), None, 200, 500);
    // the 500ms request falls into the le=1000 bucket.
    assert!(scrape(&t).contains(
        "response_latency_ms_bucket{authority=\"tele.test.svc.cluster.local\",direction=\"inbound\",tls=\"disabled\",status_code=\"200\",le=\"1000\"} 1"
    ));
    assert!(scrape(&t).contains(
        "response_latency_ms_count{authority=\"tele.test.svc.cluster.local\",direction=\"inbound\",tls=\"disabled\",status_code=\"200\"} 1"
    ));
    http_exchange(&mut t, auth, Direction::Inbound, &tls_disabled(), None, 200, 40);
    // the 40ms request falls into the le=50 bucket, and the le=1000
    // bucket counts it as well (buckets are cumulative).
    assert!(scrape(&t).contains(
        "response_latency_ms_bucket{authority=\"tele.test.svc.cluster.local\",direction=\"inbound\",tls=\"disabled\",status_code=\"200\",le=\"50\"} 1"
    ));
    assert!(scrape(&t).contains(
        "response_latency_ms_bucket{authority=\"tele.test.svc.cluster.local\",direction=\"inbound\",tls=\"disabled\",status_code=\"200\",le=\"1000\"} 2"
    ));
    assert!(scrape(&t).contains(
        "response_latency_ms_count{authority=\"tele.test.svc.cluster.local\",direction=\"inbound\",tls=\"disabled\",status_code=\"200\"} 2"
    ));
    http_exchange(&mut t, auth, Direction::Inbound, &tls_disabled(), None, 200, 40);
    assert!(scrape(&t).contains(
        "response_latency_ms_bucket{authority=\"tele.test.svc.cluster.local\",direction=\"inbound\",tls=\"disabled\",status_code=\"200\",le=\"50\"} 2"
    ));
    assert!(scrape(&t).contains(
        "response_latency_ms_bucket{authority=\"tele.test.svc.cluster.local\",direction=\"inbound\",tls=\"disabled\",status_code=\"200\",le=\"1000\"} 3"
    ));
    assert!(scrape(&t).contains(
        "response_latency_ms_count{authority=\"tele.test.svc.cluster.local\",direction=\"inbound\",tls=\"disabled\",status_code=\"200\"} 3"
    ));
    http_exchange(&mut t, auth, Direction::Inbound, &tls_disabled(), None, 200, 500);
    // the le=50 bucket is unchanged by the 500ms request.
    assert!(scrape(&t).contains(
        "response_latency_ms_bucket{authority=\"tele.test.svc.cluster.local\",direction=\"inbound\",tls=\"disabled\",status_code=\"200\",le=\"50\"} 2"
    ));
    assert!(scrape(&t).contains(
        "response_latency_ms_bucket{authority=\"tele.test.svc.cluster.local\",direction=\"inbound\",tls=\"disabled\",status_code=\"200\",le=\"1000\"} 4"
    ));
    assert!(scrape(&t).contains(
        "response_latency_ms_count{authority=\"tele.test.svc.cluster.local\",direction=\"inbound\",tls=\"disabled\",status_code=\"200\"} 4"
    ));
}

#[test]
fn metrics_endpoint_outbound_response_latency() {
    let mut t = Telemetry::new(1);
    let auth = "tele.test.svc.cluster.local";
    let tls = tls_no_id("not_provided_by_service_discovery");
    http_exchange(&mut t, auth, Direction::Outbound, &tls, None, 200, 500);
    assert!(scrape(&t).contains(
        "response_latency_ms_bucket{authority=\"tele.test.svc.cluster.local\",direction=\"outbound\",tls=\"no_identity\",no_tls_reason=\"not_provided_by_service_discovery\",status_code=\"200\",le=\"1000\"} 1"
    ));
    assert!(scrape(&t).contains(
        "response_latency_ms_count{authority=\"tele.test.svc.cluster.local\",direction=\"outbound\",tls=\"no_identity\",no_tls_reason=\"not_provided_by_service_discovery\",status_code=\"200\"} 1"
    ));
    http_exchange(&mut t, auth, Direction::Outbound, &tls, None, 200, 40);
    assert!(scrape(&t).contains(
        "response_latency_ms_bucket{authority=\"tele.test.svc.cluster.local\",direction=\"outbound\",tls=\"no_identity\",no_tls_reason=\"not_provided_by_service_discovery\",status_code=\"200\",le=\"50\"} 1"
    ));
    assert!(scrape(&t).contains(
        "response_latency_ms_bucket{authority=\"tele.test.svc.cluster.local\",direction=\"outbound\",tls=\"no_identity\",no_tls_reason=\"not_provided_by_service_discovery\",status_code=\"200\",le=\"1000\"} 2"
    ));
    assert!(scrape(&t).contains(
        "response_latency_ms_count{authority=\"tele.test.svc.cluster.local\",direction=\"outbound\",tls=\"no_identity\",no_tls_reason=\"not_provided_by_service_discovery\",status_code=\"200\"} 2"
    ));
    http_exchange(&mut t, auth, Direction::Outbound, &tls, None, 200, 40);
    assert!(scrape(&t).contains(
        "response_latency_ms_bucket{authority=\"tele.test.svc.cluster.local\",direction=\"outbound\",tls=\"no_identity\",no_tls_reason=\"not_provided_by_service_discovery\",status_code=\"200\",le=\"50\"} 2"
    ));
    assert!(scrape(&t).contains(
        "response_latency_ms_bucket{authority=\"tele.test.svc.cluster.local\",direction=\"outbound\",tls=\"no_identity\",no_tls_reason=\"not_provided_by_service_discovery\",status_code=\"200\",le=\"1000\"} 3"
    ));
    assert!(scrape(&t).contains(
        "response_latency_ms_count{authority=\"tele.test.svc.cluster.local\",direction=\"outbound\",tls=\"no_identity\",no_tls_reason=\"not_provided_by_service_discovery\",status_code=\"200\"} 3"
    ));
    http_exchange(&mut t, auth, Direction::Outbound, &tls, None, 200, 500);
    assert!(scrape(&t).contains(
        "response_latency_ms_bucket{authority=\"tele.test.svc.cluster.local\",direction=\"outbound\",tls=\"no_identity\",no_tls_reason=\"not_provided_by_service_discovery\",status_code=\"200\",le=\"50\"} 2"
    ));
    assert!(scrape(&t).contains(
        "response_latency_ms_bucket{authority=\"tele.test.svc.cluster.local\",direction=\"outbound\",tls=\"no_identity\",no_tls_reason=\"not_provided_by_service_discovery\",status_code=\"200\",le=\"1000\"} 4"
    ));
    assert!(scrape(&t).contains(
        "response_latency_ms_count{authority=\"tele.test.svc.cluster.local\",direction=\"outbound\",tls=\"no_identity\",no_tls_reason=\"not_provided_by_service_discovery\",status_code=\"200\"} 4"
    ));
}

/// One outbound exchange under whatever labels are current for `addr`.
fn labeled_exchange(t: &mut Telemetry, addr: &Vec<u8>) {
    http_exchange(
        t,
        "labeled.test.svc.cluster.local",
        Direction::Outbound,
        &tls_no_id("not_provided_by_service_discovery"),
        Some(addr),
        200,
        1,
    );
}

#[test]
fn multiple_addr_labels() {
    let mut t = Telemetry::new(1);
    let addr = bytes("10.1.1.1:8080");
    t.set_dst_labels(
        &addr,
        DstLabels {
            addr: dst_pairs(&[("addr_label1", "foo"), ("addr_label2", "bar")]),
            set: Vec::new(),
        },
    );
    labeled_exchange(&mut t, &addr);
    let out = scrape(&t);
    assert!(out.contains("dst_addr_label1=\"foo\""));
    assert!(out.contains("dst_addr_label2=\"bar\""));
}

#[test]
fn multiple_addrset_labels() {
    let mut t = Telemetry::new(1);
    let addr = bytes("10.1.1.1:8080");
    t.set_dst_labels(
        &addr,
        DstLabels {
            addr: Vec::new(),
            set: dst_pairs(&[("set_label1", "foo"), ("set_label2", "bar")]),
        },
    );
    labeled_exchange(&mut t, &addr);
    let out = scrape(&t);
    assert!(out.contains("dst_set_label1=\"foo\""));
    assert!(out.contains("dst_set_label2=\"bar\""));
}

#[test]
fn labeled_addr_and_addrset() {
    let mut t = Telemetry::new(1);
    let addr = bytes("10.1.1.1:8080");
    t.set_dst_labels(
        &addr,
        DstLabels {
            addr: dst_pairs(&[("addr_label", "foo")]),
            set: dst_pairs(&[("set_label", "bar")]),
        },
    );
    labeled_exchange(&mut t, &addr);
    let out = scrape(&t);
    assert!(out.contains(
        "response_latency_ms_count{authority=\"labeled.test.svc.cluster.local\",direction=\"outbound\",dst_addr_label=\"foo\",dst_set_label=\"bar\",tls=\"no_identity\",no_tls_reason=\"not_provided_by_service_discovery\",status_code=\"200\"} 1"
    ));
    assert!(out.contains(
        "request_total{authority=\"labeled.test.svc.cluster.local\",direction=\"outbound\",dst_addr_label=\"foo\",dst_set_label=\"bar\",tls=\"no_identity\",no_tls_reason=\"not_provided_by_service_discovery\"} 1"
    ));
    assert!(out.contains(
        "response_total{authority=\"labeled.test.svc.cluster.local\",direction=\"outbound\",dst_addr_label=\"foo\",dst_set_label=\"bar\",tls=\"no_identity\",no_tls_reason=\"not_provided_by_service_discovery\",status_code=\"200\",classification=\"success\"} 1"
    ));
}

#[test]
fn controller_updates_addr_labels() {
    let mut t = Telemetry::new(1);
    let addr = bytes("10.1.1.1:8080");
    t.set_dst_labels(
        &addr,
        DstLabels {
            addr: dst_pairs(&[("addr_label", "foo")]),
            set: dst_pairs(&[("set_label", "unchanged")]),
        },
    );
    labeled_exchange(&mut t, &addr);
    // the first request is labeled with dst_addr_label="foo".
    let out = scrape(&t);
    assert!(out.contains(
        "response_latency_ms_count{authority=\"labeled.test.svc.cluster.local\",direction=\"outbound\",dst_addr_label=\"foo\",dst_set_label=\"unchanged\",tls=\"no_identity\",no_tls_reason=\"not_provided_by_service_discovery\",status_code=\"200\"} 1"
    ));
    assert!(out.contains(
        "request_total{authority=\"labeled.test.svc.cluster.local\",direction=\"outbound\",dst_addr_label=\"foo\",dst_set_label=\"unchanged\",tls=\"no_identity\",no_tls_reason=\"not_provided_by_service_discovery\"} 1"
    ));
    assert!(out.contains(
        "response_total{authority=\"labeled.test.svc.cluster.local\",direction=\"outbound\",dst_addr_label=\"foo\",dst_set_label=\"unchanged\",tls=\"no_identity\",no_tls_reason=\"not_provided_by_service_discovery\",status_code=\"200\",classification=\"success\"} 1"
    ));
    t.set_dst_labels(
        &addr,
        DstLabels {
            addr: dst_pairs(&[("addr_label", "bar")]),
            set: dst_pairs(&[("set_label", "unchanged")]),
        },
    );
    labeled_exchange(&mut t, &addr);
    // the second request increments points labeled dst_addr_label="bar".
    let out = scrape(&t);
    assert!(out.contains(
        "response_latency_ms_count{authority=\"labeled.test.svc.cluster.local\",direction=\"outbound\",dst_addr_label=\"bar\",dst_set_label=\"unchanged\",tls=\"no_identity\",no_tls_reason=\"not_provided_by_service_discovery\",status_code=\"200\"} 1"
    ));
    assert!(out.contains(
        "request_total{authority=\"labeled.test.svc.cluster.local\",direction=\"outbound\",dst_addr_label=\"bar\",dst_set_label=\"unchanged\",tls=\"no_identity\",no_tls_reason=\"not_provided_by_service_discovery\"} 1"
    ));
    assert!(out.contains(
        "response_total{authority=\"labeled.test.svc.cluster.local\",direction=\"outbound\",dst_addr_label=\"bar\",dst_set_label=\"unchanged\",tls=\"no_identity\",no_tls_reason=\"not_provided_by_service_discovery\",status_code=\"200\",classification=\"success\"} 1"
    ));
    // points recorded from the first request are still present.
    assert!(out.contains(
        "response_latency_ms_count{authority=\"labeled.test.svc.cluster.local\",direction=\"outbound\",dst_addr_label=\"foo\",dst_set_label=\"unchanged\",tls=\"no_identity\",no_tls_reason=\"not_provided_by_service_discovery\",status_code=\"200\"} 1"
    ));
    assert!(out.contains(
        "request_total{authority=\"labeled.test.svc.cluster.local\",direction=\"outbound\",dst_addr_label=\"foo\",dst_set_label=\"unchanged\",tls=\"no_identity\",no_tls_reason=\"not_provided_by_service_discovery\"} 1"
    ));
    assert!(out.contains(
        "response_total{authority=\"labeled.test.svc.cluster.local\",direction=\"outbound\",dst_addr_label=\"foo\",dst_set_label=\"unchanged\",tls=\"no_identity\",no_tls_reason=\"not_provided_by_service_discovery\",status_code=\"200\",classification=\"success\"} 1"
    ));
}

#[test]
fn controller_updates_set_labels() {
    let mut t = Telemetry::new(1);
    let addr = bytes("10.1.1.1:8080");
    t.set_dst_labels(
        &addr,
        DstLabels { addr: Vec::new(), set: dst_pairs(&[("set_label", "foo")]) },
    );
    labeled_exchange(&mut t, &addr);
    let out = scrape(&t);
    assert!(out.contains(
        "response_latency_ms_count{authority=\"labeled.test.svc.cluster.local\",direction=\"outbound\",dst_set_label=\"foo\",tls=\"no_identity\",no_tls_reason=\"not_provided_by_service_discovery\",status_code=\"200\"} 1"
    ));
    assert!(out.contains(
        "request_total{authority=\"labeled.test.svc.cluster.local\",direction=\"outbound\",dst_set_label=\"foo\",tls=\"no_identity\",no_tls_reason=\"not_provided_by_service_discovery\"} 1"
    ));
    assert!(out.contains(
        "response_total{authority=\"labeled.test.svc.cluster.local\",direction=\"outbound\",dst_set_label=\"foo\",tls=\"no_identity\",no_tls_reason=\"not_provided_by_service_discovery\",status_code=\"200\",classification=\"success\"} 1"
    ));
    t.set_dst_labels(
        &addr,
        DstLabels { addr: Vec::new(), set: dst_pairs(&[("set_label", "bar")]) },
    );
    labeled_exchange(&mut t, &addr);
    let out = scrape(&t);
    assert!(out.contains(
        "response_latency_ms_count{authority=\"labeled.test.svc.cluster.local\",direction=\"outbound\",dst_set_label=\"bar\",tls=\"no_identity\",no_tls_reason=\"not_provided_by_service_discovery\",status_code=\"200\"} 1"
    ));
    assert!(out.contains(
        "request_total{authority=\"labeled.test.svc.cluster.local\",direction=\"outbound\",dst_set_label=\"bar\",tls=\"no_identity\",no_tls_reason=\"not_provided_by_service_discovery\"} 1"
    ));
    assert!(out.contains(
        "response_total{authority=\"labeled.test.svc.cluster.local\",direction=\"outbound\",dst_set_label=\"bar\",tls=\"no_identity\",no_tls_reason=\"not_provided_by_service_discovery\",status_code=\"200\",classification=\"success\"} 1"
    ));
    assert!(out.contains(
        "response_latency_ms_count{authority=\"labeled.test.svc.cluster.local\",direction=\"outbound\",dst_set_label=\"foo\",tls=\"no_identity\",no_tls_reason=\"not_provided_by_service_discovery\",status_code=\"200\"} 1"
    ));
    assert!(out.contains(
        "request_total{authority=\"labeled.test.svc.cluster.local\",direction=\"outbound\",dst_set_label=\"foo\",tls=\"no_identity\",no_tls_reason=\"not_provided_by_service_discovery\"} 1"
    ));
    assert!(out.contains(
        "response_total{authority=\"labeled.test.svc.cluster.local\",direction=\"outbound\",dst_set_label=\"foo\",tls=\"no_identity\",no_tls_reason=\"not_provided_by_service_discovery\",status_code=\"200\",classification=\"success\"} 1"
    ));
}

#[test]
fn metrics_have_no_double_commas() {
    let mut t = Telemetry::new(1);
    assert!(!scrape(&t).contains(",,"));
    t.on_accept(Direction::Inbound, &tls_disabled());
    t.on_connect(Direction::Inbound, &tls_no_id("loopback"));
    http_exchange(
        &mut t,
        "tele.test.svc.cluster.local",
        Direction::Inbound,
        &tls_disabled(),
        None,
        200,
        1,
    );
    assert!(!scrape(&t).contains(",,"), "inbound metrics had double comma");
    t.on_accept(Direction::Outbound, &tls_no_id("loopback"));
    http_exchange(
        &mut t,
        "tele.test.svc.cluster.local",
        Direction::Outbound,
        &tls_no_id("not_provided_by_service_discovery"),
        None,
        200,
        1,
    );
    t.on_close(
        Direction::Outbound,
        Peer::Src,
        &tls_no_id("loopback"),
        &LabelValue::empty(),
        64,
        64,
        5,
    );
    assert!(!scrape(&t).contains(",,"), "outbound metrics had double comma");
}

#[test]
fn metrics_has_start_time() {
    let t = Telemetry::new(1234567890);
    assert!(scrape(&t).contains("process_start_time_seconds 1234567890"));
}

#[test]
fn inbound_http_accept() {
    let mut t = Telemetry::new(1);
    t.on_accept(Direction::Inbound, &tls_disabled());
    http_exchange(
        &mut t,
        "tele.test.svc.cluster.local",
        Direction::Inbound,
        &tls_disabled(),
        None,
        200,
        1,
    );
    assert!(scrape(&t).contains("tcp_open_total{direction=\"inbound\",peer=\"src\",tls=\"disabled\"} 1"));
    t.on_close(Direction::Inbound, Peer::Src, &tls_disabled(), &LabelValue::empty(), 100, 100, 5);
    assert!(scrape(&t).contains(
        "tcp_close_total{direction=\"inbound\",peer=\"src\",tls=\"disabled\",errno=\"\"} 1"
    ));
    // a new client opens a new connection.
    t.on_accept(Direction::Inbound, &tls_disabled());
    assert!(scrape(&t).contains("tcp_open_total{direction=\"inbound\",peer=\"src\",tls=\"disabled\"} 2"));
    t.on_close(Direction::Inbound, Peer::Src, &tls_disabled(), &LabelValue::empty(), 100, 100, 5);
    assert!(scrape(&t).contains(
        "tcp_close_total{direction=\"inbound\",peer=\"src\",tls=\"disabled\",errno=\"\"} 2"
    ));
}

#[test]
fn inbound_http_connect() {
    let mut t = Telemetry::new(1);
    t.on_accept(Direction::Inbound, &tls_disabled());
    t.on_connect(Direction::Inbound, &tls_no_id("loopback"));
    assert!(scrape(&t).contains(
        "tcp_open_total{direction=\"inbound\",peer=\"dst\",tls=\"no_identity\",no_tls_reason=\"loopback\"} 1"
    ));
    // a second client reuses the pooled server connection.
    t.on_accept(Direction::Inbound, &tls_disabled());
    assert!(scrape(&t).contains(
        "tcp_open_total{direction=\"inbound\",peer=\"dst\",tls=\"no_identity\",no_tls_reason=\"loopback\"} 1"
    ));
}

#[test]
fn outbound_http_accept() {
    let mut t = Telemetry::new(1);
    t.on_accept(Direction::Outbound, &tls_no_id("loopback"));
    assert!(scrape(&t).contains(
        "tcp_open_total{direction=\"outbound\",peer=\"src\",tls=\"no_identity\",no_tls_reason=\"loopback\"} 1"
    ));
    t.on_close(
        Direction::Outbound,
        Peer::Src,
        &tls_no_id("loopback"),
        &LabelValue::empty(),
        100,
        100,
        5,
    );
    assert!(scrape(&t).contains(
        "tcp_close_total{direction=\"outbound\",peer=\"src\",tls=\"no_identity\",no_tls_reason=\"loopback\",errno=\"\"} 1"
    ));
    t.on_accept(Direction::Outbound, &tls_no_id("loopback"));
    assert!(scrape(&t).contains(
        "tcp_open_total{direction=\"outbound\",peer=\"src\",tls=\"no_identity\",no_tls_reason=\"loopback\"} 2"
    ));
    t.on_close(
        Direction::Outbound,
        Peer::Src,
        &tls_no_id("loopback"),
        &LabelValue::empty(),
        100,
        100,
        5,
    );
    assert!(scrape(&t).contains(
        "tcp_close_total{direction=\"outbound\",peer=\"src\",tls=\"no_identity\",no_tls_reason=\"loopback\",errno=\"\"} 2"
    ));
}

#[test]
fn outbound_http_connect() {
    let mut t = Telemetry::new(1);
    t.on_connect(Direction::Outbound, &tls_no_id("not_provided_by_service_discovery"));
    assert!(scrape(&t).contains(
        "tcp_open_total{direction=\"outbound\",peer=\"dst\",tls=\"no_identity\",no_tls_reason=\"not_provided_by_service_discovery\"} 1"
    ));
    // the server connection is pooled across clients.
    t.on_accept(Direction::Outbound, &tls_no_id("loopback"));
    assert!(scrape(&t).contains(
        "tcp_open_total{direction=\"outbound\",peer=\"dst\",tls=\"no_identity\",no_tls_reason=\"not_provided_by_service_discovery\"} 1"
    ));
}

#[test]
fn inbound_tcp_connect() {
    let mut t = Telemetry::new(1);
    t.on_accept(Direction::Inbound, &tls_disabled());
    t.on_connect(Direction::Inbound, &tls_no_id("loopback"));
    assert!(scrape(&t).contains(
        "tcp_open_total{direction=\"inbound\",peer=\"dst\",tls=\"no_identity\",no_tls_reason=\"loopback\"} 1"
    ));
}

#[test]
fn inbound_tcp_connect_err() {
    let mut t = Telemetry::new(1);
    t.on_accept(Direction::Inbound, &tls_disabled());
    // the connection to the server fails with the EXFULL error code.
    t.on_connect_error(Direction::Inbound, &tls_no_id("not_http"), &value("EXFULL"));
    t.on_close(Direction::Inbound, Peer::Src, &tls_disabled(), &LabelValue::empty(), 16, 0, 2);
    let out = scrape(&t);
    assert!(out.contains(
        "tcp_close_total{direction=\"inbound\",peer=\"dst\",tls=\"no_identity\",no_tls_reason=\"not_http\",errno=\"EXFULL\"} 1"
    ));
    // the connection from the client closed cleanly.
    assert!(out.contains(
        "tcp_close_total{direction=\"inbound\",peer=\"src\",tls=\"disabled\",errno=\"\"} 1"
    ));
    // a failed connect counts no open.
    assert!(!out.contains("tcp_open_total{direction=\"inbound\",peer=\"dst\""));
}

#[test]
fn outbound_tcp_connect_err() {
    let mut t = Telemetry::new(1);
    t.on_accept(Direction::Outbound, &tls_no_id("loopback"));
    t.on_connect_error(Direction::Outbound, &tls_no_id("not_http"), &value("EXFULL"));
    t.on_close(
        Direction::Outbound,
        Peer::Src,
        &tls_no_id("loopback"),
        &LabelValue::empty(),
        16,
        0,
        2,
    );
    let out = scrape(&t);
    assert!(out.contains(
        "tcp_close_total{direction=\"outbound\",peer=\"dst\",tls=\"no_identity\",no_tls_reason=\"not_http\",errno=\"EXFULL\"} 1"
    ));
    assert!(out.contains(
        "tcp_close_total{direction=\"outbound\",peer=\"src\",tls=\"no_identity\",no_tls_reason=\"loopback\",errno=\"\"} 1"
    ));
}

#[test]
fn inbound_tcp_accept() {
    let mut t = Telemetry::new(1);
    t.on_accept(Direction::Inbound, &tls_disabled());
    assert!(scrape(&t).contains("tcp_open_total{direction=\"inbound\",peer=\"src\",tls=\"disabled\"} 1"));
    t.on_close(Direction::Inbound, Peer::Src, &tls_disabled(), &LabelValue::empty(), 16, 14, 2);
    assert!(scrape(&t).contains(
        "tcp_close_total{direction=\"inbound\",peer=\"src\",tls=\"disabled\",errno=\"\"} 1"
    ));
    t.on_accept(Direction::Inbound, &tls_disabled());
    assert!(scrape(&t).contains("tcp_open_total{direction=\"inbound\",peer=\"src\",tls=\"disabled\"} 2"));
    t.on_close(Direction::Inbound, Peer::Src, &tls_disabled(), &LabelValue::empty(), 16, 14, 2);
    assert!(scrape(&t).contains(
        "tcp_close_total{direction=\"inbound\",peer=\"src\",tls=\"disabled\",errno=\"\"} 2"
    ));
}

#[test]
fn inbound_tcp_duration() {
    let mut t = Telemetry::new(1);
    t.on_accept(Direction::Inbound, &tls_disabled());
    t.on_connect(Direction::Inbound, &tls_no_id("loopback"));
    t.on_close(Direction::Inbound, Peer::Src, &tls_disabled(), &LabelValue::empty(), 16, 14, 10);
    t.on_close(
        Direction::Inbound,
        Peer::Dst,
        &tls_no_id("loopback"),
        &LabelValue::empty(),
        14,
        16,
        10,
    );
    let out = scrape(&t);
    assert!(out.contains(
        "tcp_connection_duration_ms_count{direction=\"inbound\",peer=\"src\",tls=\"disabled\",errno=\"\"} 1"
    ));
    assert!(out.contains(
        "tcp_connection_duration_ms_count{direction=\"inbound\",peer=\"dst\",tls=\"no_identity\",no_tls_reason=\"loopback\",errno=\"\"} 1"
    ));
    // a second connection is not counted until it closes.
    t.on_accept(Direction::Inbound, &tls_disabled());
    let out = scrape(&t);
    assert!(out.contains(
        "tcp_connection_duration_ms_count{direction=\"inbound\",peer=\"src\",tls=\"disabled\",errno=\"\"} 1"
    ));
    assert!(out.contains(
        "tcp_connection_duration_ms_count{direction=\"inbound\",peer=\"dst\",tls=\"no_identity\",no_tls_reason=\"loopback\",errno=\"\"} 1"
    ));
    t.on_close(Direction::Inbound, Peer::Src, &tls_disabled(), &LabelValue::empty(), 16, 14, 10);
    t.on_close(
        Direction::Inbound,
        Peer::Dst,
        &tls_no_id("loopback"),
        &LabelValue::empty(),
        14,
        16,
        10,
    );
    let out = scrape(&t);
    assert!(out.contains(
        "tcp_connection_duration_ms_count{direction=\"inbound\",peer=\"src\",tls=\"disabled\",errno=\"\"} 2"
    ));
    assert!(out.contains(
        "tcp_connection_duration_ms_count{direction=\"inbound\",peer=\"dst\",tls=\"no_identity\",no_tls_reason=\"loopback\",errno=\"\"} 2"
    ));
}

#[test]
fn inbound_tcp_write_bytes_total() {
    let mut t = Telemetry::new(1);
    // the client writes "custom tcp hello" (16 bytes); the server
    // replies "custom tcp bye" (14 bytes).
    t.on_accept(Direction::Inbound, &tls_disabled());
    t.on_connect(Direction::Inbound, &tls_no_id("loopback"));
    t.on_close(Direction::Inbound, Peer::Src, &tls_disabled(), &LabelValue::empty(), 16, 14, 2);
    t.on_close(
        Direction::Inbound,
        Peer::Dst,
        &tls_no_id("loopback"),
        &LabelValue::empty(),
        14,
        16,
        2,
    );
    let out = scrape(&t);
    assert!(out.contains("tcp_write_bytes_total{direction=\"inbound\",peer=\"src\",tls=\"disabled\"} 14"));
    assert!(out.contains(
        "tcp_write_bytes_total{direction=\"inbound\",peer=\"dst\",tls=\"no_identity\",no_tls_reason=\"loopback\"} 16"
    ));
}

#[test]
fn inbound_tcp_read_bytes_total() {
    let mut t = Telemetry::new(1);
    t.on_accept(Direction::Inbound, &tls_disabled());
    t.on_connect(Direction::Inbound, &tls_no_id("loopback"));
    t.on_close(Direction::Inbound, Peer::Src, &tls_disabled(), &LabelValue::empty(), 16, 14, 2);
    t.on_close(
        Direction::Inbound,
        Peer::Dst,
        &tls_no_id("loopback"),
        &LabelValue::empty(),
        14,
        16,
        2,
    );
    let out = scrape(&t);
    assert!(out.contains("tcp_read_bytes_total{direction=\"inbound\",peer=\"src\",tls=\"disabled\"} 16"));
    assert!(out.contains(
        "tcp_read_bytes_total{direction=\"inbound\",peer=\"dst\",tls=\"no_identity\",no_tls_reason=\"loopback\"} 14"
    ));
}

#[test]
fn outbound_tcp_connect() {
    let mut t = Telemetry::new(1);
    t.on_accept(Direction::Outbound, &tls_no_id("loopback"));
    t.on_connect(Direction::Outbound, &tls_no_id("not_http"));
    assert!(scrape(&t).contains(
        "tcp_open_total{direction=\"outbound\",peer=\"dst\",tls=\"no_identity\",no_tls_reason=\"not_http\"} 1"
    ));
}

#[test]
fn outbound_tcp_accept() {
    let mut t = Telemetry::new(1);
    t.on_accept(Direction::Outbound, &tls_no_id("loopback"));
    assert!(scrape(&t).contains(
        "tcp_open_total{direction=\"outbound\",peer=\"src\",tls=\"no_identity\",no_tls_reason=\"loopback\"} 1"
    ));
    t.on_close(
        Direction::Outbound,
        Peer::Src,
        &tls_no_id("loopback"),
        &LabelValue::empty(),
        16,
        14,
        2,
    );
    assert!(scrape(&t).contains(
        "tcp_close_total{direction=\"outbound\",peer=\"src\",tls=\"no_identity\",no_tls_reason=\"loopback\",errno=\"\"} 1"
    ));
    t.on_accept(Direction::Outbound, &tls_no_id("loopback"));
    assert!(scrape(&t).contains(
        "tcp_open_total{direction=\"outbound\",peer=\"src\",tls=\"no_identity\",no_tls_reason=\"loopback\"} 2"
    ));
    t.on_close(
        Direction::Outbound,
        Peer::Src,
        &tls_no_id("loopback"),
        &LabelValue::empty(),
        16,
        14,
        2,
    );
    assert!(scrape(&t).contains(
        "tcp_close_total{direction=\"outbound\",peer=\"src\",tls=\"no_identity\",no_tls_reason=\"loopback\",errno=\"\"} 2"
    ));
}

#[test]
fn outbound_tcp_duration() {
    let mut t = Telemetry::new(1);
    t.on_accept(Direction::Outbound, &tls_no_id("loopback"));
    t.on_connect(Direction::Outbound, &tls_no_id("not_http"));
    t.on_close(
        Direction::Outbound,
        Peer::Src,
        &tls_no_id("loopback"),
        &LabelValue::empty(),
        16,
        14,
        10,
    );
    t.on_close(
        Direction::Outbound,
        Peer::Dst,
        &tls_no_id("not_http"),
        &LabelValue::empty(),
        14,
        16,
        10,
    );
    let out = scrape(&t);
    assert!(out.contains(
        "tcp_connection_duration_ms_count{direction=\"outbound\",peer=\"src\",tls=\"no_identity\",no_tls_reason=\"loopback\",errno=\"\"} 1"
    ));
    assert!(out.contains(
        "tcp_connection_duration_ms_count{direction=\"outbound\",peer=\"dst\",tls=\"no_identity\",no_tls_reason=\"not_http\",errno=\"\"} 1"
    ));
    t.on_accept(Direction::Outbound, &tls_no_id("loopback"));
    let out = scrape(&t);
    assert!(out.contains(
        "tcp_connection_duration_ms_count{direction=\"outbound\",peer=\"src\",tls=\"no_identity\",no_tls_reason=\"loopback\",errno=\"\"} 1"
    ));
    assert!(out.contains(
        "tcp_connection_duration_ms_count{direction=\"outbound\",peer=\"dst\",tls=\"no_identity\",no_tls_reason=\"not_http\",errno=\"\"} 1"
    ));
    t.on_close(
        Direction::Outbound,
        Peer::Src,
        &tls_no_id("loopback"),
        &LabelValue::empty(),
        16,
        14,
        10,
    );
    t.on_close(
        Direction::Outbound,
        Peer::Dst,
        &tls_no_id("not_http"),
        &LabelValue::empty(),
        14,
        16,
        10,
    );
    let out = scrape(&t);
    assert!(out.contains(
        "tcp_connection_duration_ms_count{direction=\"outbound\",peer=\"src\",tls=\"no_identity\",no_tls_reason=\"loopback\",errno=\"\"} 2"
    ));
    assert!(out.contains(
        "tcp_connection_duration_ms_count{direction=\"outbound\",peer=\"dst\",tls=\"no_identity\",no_tls_reason=\"not_http\",errno=\"\"} 2"
    ));
}

#[test]
fn outbound_tcp_write_bytes_total() {
    let mut t = Telemetry::new(1);
    t.on_accept(Direction::Outbound, &tls_no_id("loopback"));
    t.on_connect(Direction::Outbound, &tls_no_id("not_http"));
    t.on_close(
        Direction::Outbound,
        Peer::Src,
        &tls_no_id("loopback"),
        &LabelValue::empty(),
        16,
        14,
        2,
    );
    t.on_close(
        Direction::Outbound,
        Peer::Dst,
        &tls_no_id("not_http"),
        &LabelValue::empty(),
        14,
        16,
        2,
    );
    let out = scrape(&t);
    assert!(out.contains(
        "tcp_write_bytes_total{direction=\"outbound\",peer=\"src\",tls=\"no_identity\",no_tls_reason=\"loopback\"} 14"
    ));
    assert!(out.contains(
        "tcp_write_bytes_total{direction=\"outbound\",peer=\"dst\",tls=\"no_identity\",no_tls_reason=\"not_http\"} 16"
    ));
}

#[test]
fn outbound_tcp_read_bytes_total() {
    let mut t = Telemetry::new(1);
    t.on_accept(Direction::Outbound, &tls_no_id("loopback"));
    t.on_connect(Direction::Outbound, &tls_no_id("not_http"));
    t.on_close(
        Direction::Outbound,
        Peer::Src,
        &tls_no_id("loopback"),
        &LabelValue::empty(),
        16,
        14,
        2,
    );
    t.on_close(
        Direction::Outbound,
        Peer::Dst,
        &tls_no_id("not_http"),
        &LabelValue::empty(),
        14,
        16,
        2,
    );
    let out = scrape(&t);
    assert!(out.contains(
        "tcp_read_bytes_total{direction=\"outbound\",peer=\"src\",tls=\"no_identity\",no_tls_reason=\"loopback\"} 16"
    ));
    assert!(out.contains(
        "tcp_read_bytes_total{direction=\"outbound\",peer=\"dst\",tls=\"no_identity\",no_tls_reason=\"not_http\"} 14"
    ));
}

#[test]
fn outbound_tcp_open_connections() {
    let mut t = Telemetry::new(1);
    t.on_accept(Direction::Outbound, &tls_no_id("loopback"));
    assert!(scrape(&t).contains(
        "tcp_open_connections{direction=\"outbound\",peer=\"src\",tls=\"no_identity\",no_tls_reason=\"loopback\"} 1"
    ));
    t.on_close(
        Direction::Outbound,
        Peer::Src,
        &tls_no_id("loopback"),
        &LabelValue::empty(),
        16,
        14,
        2,
    );
    assert!(scrape(&t).contains(
        "tcp_open_connections{direction=\"outbound\",peer=\"src\",tls=\"no_identity\",no_tls_reason=\"loopback\"} 0"
    ));
    t.on_accept(Direction::Outbound, &tls_no_id("loopback"));
    assert!(scrape(&t).contains(
        "tcp_open_connections{direction=\"outbound\",peer=\"src\",tls=\"no_identity\",no_tls_reason=\"loopback\"} 1"
    ));
    t.on_close(
        Direction::Outbound,
        Peer::Src,
        &tls_no_id("loopback"),
        &LabelValue::empty(),
        16,
        14,
        2,
    );
    assert!(scrape(&t).contains(
        "tcp_open_connections{direction=\"outbound\",peer=\"src\",tls=\"no_identity\",no_tls_reason=\"loopback\"} 0"
    ));
}

#[test]
fn outbound_http_tcp_open_connections() {
    let mut t = Telemetry::new(1);
    t.on_accept(Direction::Outbound, &tls_no_id("loopback"));
    http_exchange(
        &mut t,
        "tele.test.svc.cluster.local",
        Direction::Outbound,
        &tls_no_id("not_provided_by_service_discovery"),
        None,
        200,
        1,
    );
    assert!(scrape(&t).contains(
        "tcp_open_connections{direction=\"outbound\",peer=\"src\",tls=\"no_identity\",no_tls_reason=\"loopback\"} 1"
    ));
    t.on_close(
        Direction::Outbound,
        Peer::Src,
        &tls_no_id("loopback"),
        &LabelValue::empty(),
        100,
        100,
        5,
    );
    assert!(scrape(&t).contains(
        "tcp_open_connections{direction=\"outbound\",peer=\"src\",tls=\"no_identity\",no_tls_reason=\"loopback\"} 0"
    ));
    t.on_accept(Direction::Outbound, &tls_no_id("loopback"));
    http_exchange(
        &mut t,
        "tele.test.svc.cluster.local",
        Direction::Outbound,
        &tls_no_id("not_provided_by_service_discovery"),
        None,
        200,
        1,
    );
    assert!(scrape(&t).contains(
        "tcp_open_connections{direction=\"outbound\",peer=\"src\",tls=\"no_identity\",no_tls_reason=\"loopback\"} 1"
    ));
    t.on_close(
        Direction::Outbound,
        Peer::Src,
        &tls_no_id("loopback"),
        &LabelValue::empty(),
        100,
        100,
        5,
    );
    assert!(scrape(&t).contains(
        "tcp_open_connections{direction=\"outbound\",peer=\"src\",tls=\"no_identity\",no_tls_reason=\"loopback\"} 0"
    ));
}

fn gzip_scrape(t: &Telemetry, encoding: &str) -> String {
    let header = bytes(encoding);
    let resp = render(t, Some(&header));
    let enc = resp.content_encoding.expect(&format!(
        "unexpected missing Content-Encoding (requested Accept-Encoding: {})",
        encoding
    ));
    assert_eq!(String::from_utf8(enc).unwrap(), "gzip");
    let mut decoder = flate2::read::GzDecoder::new(std::io::Cursor::new(resp.body));
    let mut out = String::new();
    std::io::Read::read_to_string(&mut decoder, &mut out)
        .expect(&format!("decode gzip (requested Accept-Encoding: {})", encoding));
    out
}

#[test]
fn metrics_compression() {
    let mut t = Telemetry::new(1);
    let encodings = &["gzip", "deflate, gzip", "gzip,deflate", "brotli,gzip,deflate"];
    http_exchange(
        &mut t,
        "tele.test.svc.cluster.local",
        Direction::Inbound,
        &tls_disabled(),
        None,
        200,
        1,
    );
    for &encoding in encodings {
        assert!(gzip_scrape(&t, encoding).contains(
            "response_latency_ms_count{authority=\"tele.test.svc.cluster.local\",direction=\"inbound\",tls=\"disabled\",status_code=\"200\"} 1"
        ));
    }
    http_exchange(
        &mut t,
        "tele.test.svc.cluster.local",
        Direction::Inbound,
        &tls_disabled(),
        None,
        200,
        1,
    );
    for &encoding in encodings {
        assert!(gzip_scrape(&t, encoding).contains(
            "response_latency_ms_count{authority=\"tele.test.svc.cluster.local\",direction=\"inbound\",tls=\"disabled\",status_code=\"200\"} 2"
        ));
    }
}
