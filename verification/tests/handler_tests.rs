use blade_temps::handler::{fetch_result, get_temperatures, metadata_mapping, FetchError, QueryReply};
use blade_temps::sample::MetricSample;

fn sample(instance: &str, value: &str) -> MetricSample {
    MetricSample {
        labels: vec![("instance".to_string(), instance.to_string())],
        value: value.to_string(),
    }
}

fn meta_row(pod: &str, ip: &str, node: &str) -> MetricSample {
    MetricSample {
        labels: vec![
            ("pod".to_string(), pod.to_string()),
            ("pod_ip".to_string(), ip.to_string()),
            ("node".to_string(), node.to_string()),
        ],
        value: "1".to_string(),
    }
}

fn ok_reply(rows: Vec<MetricSample>) -> QueryReply {
    QueryReply::Reply { status: "success".to_string(), rows }
}

fn error_reply() -> QueryReply {
    QueryReply::Reply { status: "error".to_string(), rows: vec![] }
}

#[test]
fn fetch_result_accepts_success() {
    let r = fetch_result(ok_reply(vec![sample("a", "1.0")]));
    assert_eq!(r.map(|rows| rows.len()), Ok(1));
}

#[test]
fn fetch_result_rejects_bad_status() {
    assert!(matches!(fetch_result(error_reply()), Err(FetchError::BadStatus)));
}

#[test]
fn fetch_result_rejects_missing_reply() {
    assert!(matches!(fetch_result(QueryReply::Failed), Err(FetchError::NoReply)));
}

#[test]
fn metadata_mapping_resolves_on_success() {
    let m = metadata_mapping(ok_reply(vec![meta_row("node-exporter-a", "10.0.0.1", "blade-1")]))
        .unwrap();
    assert_eq!(m.get("10.0.0.1:9100"), Some(&"blade-1".to_string()));
}

#[test]
fn metadata_mapping_fails_on_bad_status() {
    assert!(metadata_mapping(error_reply()).is_err());
}

#[test]
fn metadata_failure_is_not_fatal_and_degrades_to_sentinel() {
    let res = get_temperatures(
        QueryReply::Failed,
        ok_reply(vec![sample("10.0.0.1:9100", "45.0")]),
        ok_reply(vec![sample("10.0.0.1:9100", "46.0")]),
        ok_reply(vec![sample("10.0.0.1:9100", "47.0")]),
    );
    let out = res.unwrap();
    assert_eq!(out.len(), 1);
    assert_eq!(out[0].node, "unknown_blade");
    assert_eq!(out[0].minutely_tenths, 450);
    assert_eq!(out[0].hourly_degrees, 46);
    assert_eq!(out[0].daily_tenths, 470);
}

#[test]
fn any_window_failure_fails_the_request() {
    let meta = || ok_reply(vec![meta_row("node-exporter-a", "10.0.0.1", "blade-1")]);
    let good = || ok_reply(vec![sample("10.0.0.1:9100", "45.0")]);
    assert!(get_temperatures(meta(), QueryReply::Failed, good(), good()).is_err());
    assert!(get_temperatures(meta(), good(), error_reply(), good()).is_err());
    assert!(get_temperatures(meta(), good(), good(), QueryReply::Failed).is_err());
}

#[test]
fn full_request_resolves_and_aggregates() {
    let meta = ok_reply(vec![
        meta_row("node-exporter-a", "10.0.0.1", "blade-b"),
        meta_row("node-exporter-b", "10.0.0.2", "blade-a"),
    ]);
    let minutely = ok_reply(vec![
        sample("10.0.0.1:9100", "40.12"),
        sample("10.0.0.2:9100", "50.55"),
    ]);
    let hourly = ok_reply(vec![
        sample("10.0.0.1:9100", "41.5"),
        sample("10.0.0.2:9100", "51.4"),
    ]);
    let daily = ok_reply(vec![
        sample("10.0.0.1:9100", "42.35"),
        sample("10.0.0.2:9100", "52.34"),
    ]);
    let out = get_temperatures(meta, minutely, hourly, daily).unwrap();
    assert_eq!(out.len(), 2);
    assert_eq!(out[0].node, "blade-a");
    assert_eq!(out[0].minutely_tenths, 506);
    assert_eq!(out[0].hourly_degrees, 51);
    assert_eq!(out[0].daily_tenths, 523);
    assert_eq!(out[1].node, "blade-b");
    assert_eq!(out[1].minutely_tenths, 401);
    assert_eq!(out[1].hourly_degrees, 42);
    assert_eq!(out[1].daily_tenths, 424);
}
