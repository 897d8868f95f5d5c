//! Tests for the module removal safety check.

use convergio_depgraph::manifest::{Capability, Dependency, Manifest, ModuleKind};
use convergio_depgraph::removal::check_removal;

fn removal_cap(name: &str) -> Capability {
    Capability {
        name: name.into(),
        version: "0.1.0".into(),
        description: String::new(),
    }
}

fn removal_dep(name: &str, required: bool) -> Dependency {
    Dependency {
        capability: name.into(),
        version_req: ">=0.1.0".into(),
        required,
    }
}

fn removal_manifest(id: &str, provides: Vec<Capability>, requires: Vec<Dependency>) -> Manifest {
    Manifest {
        id: id.into(),
        description: String::new(),
        version: "0.1.0".into(),
        kind: ModuleKind::Core,
        provides,
        requires,
        agent_tools: vec![],
        required_roles: vec![],
    }
}

#[test]
fn removal_safe_when_no_dependents() {
    let manifests = vec![
        removal_manifest("types", vec![removal_cap("core")], vec![]),
        removal_manifest("unused", vec![removal_cap("nothing")], vec![]),
    ];
    let result = check_removal("unused", &manifests);
    assert!(result.safe);
    assert!(result.would_break.is_empty());
}

#[test]
fn removal_blocked_with_required_dependent() {
    let manifests = vec![
        removal_manifest("types", vec![removal_cap("core")], vec![]),
        removal_manifest("db", vec![], vec![removal_dep("core", true)]),
    ];
    let result = check_removal("types", &manifests);
    assert!(!result.safe);
    assert_eq!(result.would_break.len(), 1);
    assert_eq!(result.would_break[0].module_id, "db");
}

#[test]
fn removal_ok_with_optional_dependent() {
    let manifests = vec![
        removal_manifest("types", vec![removal_cap("core")], vec![]),
        removal_manifest("ext", vec![], vec![removal_dep("core", false)]),
    ];
    let result = check_removal("types", &manifests);
    assert!(result.safe);
    assert_eq!(result.would_break.len(), 1);
}

#[test]
fn removal_of_nonexistent_module() {
    let manifests = vec![removal_manifest("types", vec![removal_cap("core")], vec![])];
    let result = check_removal("ghost", &manifests);
    assert!(result.safe);
}

#[test]
fn removal_ok_when_alt_provider_exists() {
    let manifests = vec![
        removal_manifest("provider-a", vec![removal_cap("shared")], vec![]),
        removal_manifest("provider-b", vec![removal_cap("shared")], vec![]),
        removal_manifest("consumer", vec![], vec![removal_dep("shared", true)]),
    ];
    let result = check_removal("provider-a", &manifests);
    assert!(result.safe);
}
