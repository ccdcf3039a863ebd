use blade_temps::aggregate::{aggregate_measurements, temps_from_rows};
use blade_temps::number::{parse_scaled, round_to_unit};
use blade_temps::sample::MetricSample;
use blade_temps::table::StrTable;

fn sample(instance: &str, value: &str) -> MetricSample {
    MetricSample {
        labels: vec![("instance".to_string(), instance.to_string())],
        value: value.to_string(),
    }
}

fn node_map(entries: &[(&str, &str)]) -> StrTable<String> {
    let mut m = StrTable::new();
    for (k, v) in entries {
        m.insert(k.to_string(), v.to_string());
    }
    m
}

#[test]
fn parse_plain_decimal() {
    assert_eq!(parse_scaled("45.37"), Some(453700));
    assert_eq!(parse_scaled("45"), Some(450000));
    assert_eq!(parse_scaled("-3.5"), Some(-35000));
    assert_eq!(parse_scaled("0.0001"), Some(1));
    assert_eq!(parse_scaled("12.345678"), Some(123456));
}

#[test]
fn parse_rejects_non_numerals() {
    assert_eq!(parse_scaled(""), None);
    assert_eq!(parse_scaled("-"), None);
    assert_eq!(parse_scaled("4."), None);
    assert_eq!(parse_scaled(".5"), None);
    assert_eq!(parse_scaled("abc"), None);
    assert_eq!(parse_scaled("4x5"), None);
    assert_eq!(parse_scaled("4.5.6"), None);
    assert_eq!(parse_scaled("1234567890123"), None);
}

#[test]
fn rounding_policy() {
    // minutely 45.37 -> 45.4 (tenths)
    assert_eq!(round_to_unit(453700, 1000), 454);
    // hourly 45.6 -> 46 (whole degrees)
    assert_eq!(round_to_unit(456000, 10000), 46);
    // daily 45.34 -> 45.3 (tenths)
    assert_eq!(round_to_unit(453400, 1000), 453);
    // halves go away from zero
    assert_eq!(round_to_unit(455000, 10000), 46);
    assert_eq!(round_to_unit(-455000, 10000), -46);
}

#[test]
fn rounding_through_aggregation() {
    let minutely = vec![sample("10.0.0.1:9100", "45.37")];
    let hourly = vec![sample("10.0.0.1:9100", "45.6")];
    let daily = vec![sample("10.0.0.1:9100", "45.34")];
    let map = node_map(&[("10.0.0.1:9100", "blade-1")]);
    let out = aggregate_measurements(&minutely, &hourly, &daily, &map);
    assert_eq!(out.len(), 1);
    assert_eq!(out[0].node, "blade-1");
    assert_eq!(out[0].minutely_tenths, 454);
    assert_eq!(out[0].hourly_degrees, 46);
    assert_eq!(out[0].daily_tenths, 453);
}

#[test]
fn max_per_node_not_sum_or_average() {
    let minutely = vec![sample("10.0.0.1:9100", "40.1"), sample("10.0.0.2:9100", "55.9")];
    let hourly = vec![];
    let daily = vec![];
    let map = node_map(&[("10.0.0.1:9100", "blade-1"), ("10.0.0.2:9100", "blade-1")]);
    let out = aggregate_measurements(&minutely, &hourly, &daily, &map);
    assert_eq!(out.len(), 1);
    assert_eq!(out[0].node, "blade-1");
    assert_eq!(out[0].minutely_tenths, 559);
}

#[test]
fn unmapped_instances_collapse_to_one_sentinel_record() {
    let minutely = vec![sample("10.0.0.1:9100", "30.0"), sample("10.0.0.2:9100", "20.0")];
    let hourly = vec![];
    let daily = vec![];
    let map = node_map(&[]);
    let out = aggregate_measurements(&minutely, &hourly, &daily, &map);
    assert_eq!(out.len(), 1);
    assert_eq!(out[0].node, "unknown_blade");
}

#[test]
fn output_sorted_by_node_name() {
    let minutely = vec![
        sample("10.0.0.3:9100", "10.0"),
        sample("10.0.0.1:9100", "20.0"),
        sample("10.0.0.2:9100", "30.0"),
    ];
    let hourly = vec![];
    let daily = vec![];
    let map = node_map(&[
        ("10.0.0.3:9100", "gamma"),
        ("10.0.0.1:9100", "alpha"),
        ("10.0.0.2:9100", "beta"),
    ]);
    let out = aggregate_measurements(&minutely, &hourly, &daily, &map);
    let nodes: Vec<&str> = out.iter().map(|m| m.node.as_str()).collect();
    assert_eq!(nodes, vec!["alpha", "beta", "gamma"]);
}

#[test]
fn instance_absent_from_minutely_is_absent_from_output() {
    let minutely = vec![sample("10.0.0.1:9100", "20.0")];
    let hourly = vec![sample("10.0.0.2:9100", "90.0")];
    let daily = vec![sample("10.0.0.2:9100", "90.0")];
    let map = node_map(&[("10.0.0.1:9100", "alpha"), ("10.0.0.2:9100", "beta")]);
    let out = aggregate_measurements(&minutely, &hourly, &daily, &map);
    assert_eq!(out.len(), 1);
    assert_eq!(out[0].node, "alpha");
}

#[test]
fn missing_hourly_and_daily_default_to_zero() {
    let minutely = vec![sample("10.0.0.1:9100", "20.0")];
    let hourly = vec![];
    let daily = vec![];
    let map = node_map(&[("10.0.0.1:9100", "alpha")]);
    let out = aggregate_measurements(&minutely, &hourly, &daily, &map);
    assert_eq!(out.len(), 1);
    assert_eq!(out[0].minutely_tenths, 200);
    assert_eq!(out[0].hourly_degrees, 0);
    assert_eq!(out[0].daily_tenths, 0);
}

#[test]
fn non_numeric_values_are_dropped() {
    let minutely = vec![sample("10.0.0.1:9100", "NaN"), sample("10.0.0.2:9100", "25.0")];
    let hourly = vec![];
    let daily = vec![];
    let map = node_map(&[("10.0.0.1:9100", "alpha"), ("10.0.0.2:9100", "beta")]);
    let out = aggregate_measurements(&minutely, &hourly, &daily, &map);
    assert_eq!(out.len(), 1);
    assert_eq!(out[0].node, "beta");
}

#[test]
fn rows_without_instance_label_are_dropped() {
    let no_instance = MetricSample {
        labels: vec![("job".to_string(), "node".to_string())],
        value: "33.0".to_string(),
    };
    let minutely = vec![no_instance, sample("10.0.0.2:9100", "25.0")];
    let out = aggregate_measurements(&minutely, &vec![], &vec![], &node_map(&[]));
    assert_eq!(out.len(), 1);
    assert_eq!(out[0].minutely_tenths, 250);
}

#[test]
fn later_reading_for_same_instance_wins() {
    let minutely = vec![sample("10.0.0.1:9100", "10.0"), sample("10.0.0.1:9100", "12.0")];
    let map = node_map(&[("10.0.0.1:9100", "alpha")]);
    let out = aggregate_measurements(&minutely, &vec![], &vec![], &map);
    assert_eq!(out.len(), 1);
    assert_eq!(out[0].minutely_tenths, 120);
}

#[test]
fn temps_table_keeps_one_entry_per_instance() {
    let rows = vec![sample("10.0.0.1:9100", "10.0"), sample("10.0.0.1:9100", "12.0")];
    let t = temps_from_rows(&rows);
    assert_eq!(t.len(), 1);
    assert_eq!(t.get("10.0.0.1:9100"), Some(&120000));
}
