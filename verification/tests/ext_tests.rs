//! Tests for the dependency graph extension.

use convergio_depgraph::ext::{DepgraphExtension, Health};

#[test]
fn manifest_has_correct_id() {
    let ext = DepgraphExtension::default();
    let m = ext.manifest();
    assert_eq!(m.id, "convergio-depgraph");
}

#[test]
fn provides_three_capabilities() {
    let ext = DepgraphExtension::default();
    let m = ext.manifest();
    assert_eq!(m.provides.len(), 3);
}

#[test]
fn health_ok_with_empty_graph() {
    let ext = DepgraphExtension::default();
    assert!(matches!(ext.health(), Health::Healthy));
}

#[test]
fn metrics_report_counts() {
    let ext = DepgraphExtension::default();
    let metrics = ext.metrics();
    assert_eq!(metrics.len(), 2);
    assert_eq!(metrics[0].name, "depgraph_modules");
}

#[test]
fn startup_validation_passes_empty() {
    let ext = DepgraphExtension::default();
    assert!(ext.validate_at_startup().is_ok());
}
