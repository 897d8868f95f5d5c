//! Tests for the OpenAPI description.

use convergio_depgraph::manifest::{Capability, Manifest, ModuleKind, ToolSpec};
use convergio_depgraph::openapi::generate;

fn object_schema() -> serde_json::Value {
    let mut m = serde_json::Map::new();
    m.insert("type".to_string(), serde_json::Value::String("object".to_string()));
    serde_json::Value::Object(m)
}

#[test]
fn generates_valid_openapi_structure() {
    let manifests = vec![Manifest {
        id: "test-module".into(),
        description: "A test module".into(),
        version: "1.0.0".into(),
        kind: ModuleKind::Extension,
        provides: vec![Capability {
            name: "test-cap".into(),
            version: "1.0.0".into(),
            description: "Test capability".into(),
        }],
        requires: vec![],
        agent_tools: vec![ToolSpec {
            name: "test-tool".into(),
            description: "A test tool".into(),
            parameters_schema: object_schema(),
        }],
        required_roles: vec![],
    }];

    let spec = generate(&manifests);
    assert_eq!(spec.openapi, "3.0.3");
    assert!(!spec.title.is_empty());
    assert!(spec.paths.get(&"/api/capabilities/test-cap".to_string()).is_some());
    assert!(spec.paths.get(&"/api/tools/test-tool".to_string()).is_some());
    assert_eq!(spec.tags[0].name, "test-module");
}

#[test]
fn empty_manifests_produces_empty_paths() {
    let spec = generate(&[]);
    assert!(spec.paths.entries().is_empty());
    assert!(spec.tags.is_empty());
}
