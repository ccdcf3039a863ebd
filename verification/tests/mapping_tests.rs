use blade_temps::mapping::{build_instance_node_map, instance_to_blade_name};
use blade_temps::sample::MetricSample;
use blade_temps::table::StrTable;

fn meta_row(labels: &[(&str, &str)]) -> MetricSample {
    MetricSample {
        labels: labels.iter().map(|(k, v)| (k.to_string(), v.to_string())).collect(),
        value: "1".to_string(),
    }
}

#[test]
fn qualifying_row_is_mapped() {
    let rows = vec![meta_row(&[
        ("pod", "node-exporter-abc"),
        ("pod_ip", "10.0.0.1"),
        ("node", "blade-1"),
    ])];
    let m = build_instance_node_map(&rows);
    assert_eq!(m.get("10.0.0.1:9100"), Some(&"blade-1".to_string()));
}

#[test]
fn row_without_pod_ip_is_excluded() {
    let rows = vec![meta_row(&[("pod", "node-exporter-abc"), ("node", "blade-1")])];
    let m = build_instance_node_map(&rows);
    assert_eq!(m.len(), 0);
}

#[test]
fn row_without_node_is_excluded() {
    let rows = vec![meta_row(&[("pod", "node-exporter-abc"), ("pod_ip", "10.0.0.1")])];
    let m = build_instance_node_map(&rows);
    assert_eq!(m.len(), 0);
}

#[test]
fn pod_name_without_node_exporter_is_excluded() {
    let rows = vec![meta_row(&[
        ("pod", "coredns-xyz"),
        ("pod_ip", "10.0.0.1"),
        ("node", "blade-1"),
    ])];
    let m = build_instance_node_map(&rows);
    assert_eq!(m.len(), 0);
}

#[test]
fn row_without_pod_label_is_excluded() {
    let rows = vec![meta_row(&[("pod_ip", "10.0.0.1"), ("node", "blade-1")])];
    let m = build_instance_node_map(&rows);
    assert_eq!(m.len(), 0);
}

#[test]
fn later_row_overrides_earlier_one() {
    let rows = vec![
        meta_row(&[("pod", "node-exporter-a"), ("pod_ip", "10.0.0.1"), ("node", "blade-1")]),
        meta_row(&[("pod", "node-exporter-b"), ("pod_ip", "10.0.0.1"), ("node", "blade-2")]),
    ];
    let m = build_instance_node_map(&rows);
    assert_eq!(m.len(), 1);
    assert_eq!(m.get("10.0.0.1:9100"), Some(&"blade-2".to_string()));
}

#[test]
fn mapped_instance_resolves_to_its_node() {
    let mut m: StrTable<String> = StrTable::new();
    m.insert("10.0.0.1:9100".to_string(), "blade-1".to_string());
    assert_eq!(instance_to_blade_name("10.0.0.1:9100", &m), "blade-1");
}

#[test]
fn unmapped_instance_resolves_to_sentinel() {
    let m: StrTable<String> = StrTable::new();
    assert_eq!(instance_to_blade_name("10.0.0.9:9100", &m), "unknown_blade");
}
