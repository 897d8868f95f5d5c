//! Scenarios and properties of the library on concrete inputs.

use convergio_depgraph::catalog::list_capabilities;
use convergio_depgraph::cycle::detect_cycle;
use convergio_depgraph::ext::{DepgraphExtension, Health};
use convergio_depgraph::graph::{build_capability_map, build_capability_version_map, kind_name, DepGraph, GraphError};
use convergio_depgraph::manifest::{Capability, Dependency, Manifest, ModuleKind, ToolSpec};
use convergio_depgraph::mcp_defs::depgraph_tools;
use convergio_depgraph::openapi::generate;
use convergio_depgraph::removal::check_removal;
use convergio_depgraph::semver_check::verdict;
use convergio_depgraph::strmap::StrMap;
use convergio_depgraph::text::{joined, push_decimal, push_underscored};

fn offer(name: &str, ver: &str) -> Capability {
    Capability { name: name.into(), version: ver.into(), description: format!("{name} capability") }
}

fn need(cap_name: &str, ver_req: &str, required: bool) -> Dependency {
    Dependency { capability: cap_name.into(), version_req: ver_req.into(), required }
}

fn module(id: &str, provides: Vec<Capability>, requires: Vec<Dependency>) -> Manifest {
    Manifest {
        id: id.into(),
        description: format!("{id} module"),
        version: "0.1.0".into(),
        kind: ModuleKind::Core,
        provides,
        requires,
        agent_tools: vec![],
        required_roles: vec![],
    }
}

fn tool(name: &str) -> ToolSpec {
    let mut m = serde_json::Map::new();
    m.insert("type".to_string(), serde_json::Value::String("object".to_string()));
    ToolSpec { name: name.into(), description: format!("{name} tool"), parameters_schema: serde_json::Value::Object(m) }
}

#[test]
fn cycle_members_are_the_modules_on_the_cycle() {
    let manifests = vec![
        module("alpha", vec![offer("cap-a", "1.0.0")], vec![need("cap-b", ">=1.0.0", true)]),
        module("beta", vec![offer("cap-b", "1.0.0")], vec![need("cap-a", ">=1.0.0", true)]),
        module("gamma", vec![], vec![need("cap-a", ">=1.0.0", true)]),
        module("delta", vec![offer("cap-d", "1.0.0")], vec![]),
    ];
    let errors = DepGraph::validate(&manifests).unwrap_err();
    assert_eq!(errors.len(), 1);
    match &errors[0] {
        GraphError::CircularDependency { cycle } => {
            assert_eq!(cycle, &vec!["alpha".to_string(), "beta".to_string()]);
        }
        other => panic!("unexpected error {:?}", other),
    }
}

#[test]
fn repeated_ids_alone_are_not_a_cycle() {
    let manifests = vec![module("twin", vec![], vec![]), module("twin", vec![], vec![])];
    let map = build_capability_map(&manifests);
    assert_eq!(detect_cycle(&manifests, &map), None);
    assert!(DepGraph::validate(&manifests).is_ok());
}

#[test]
fn module_depending_on_a_cycle_is_not_a_member() {
    let manifests = vec![
        module("a", vec![offer("cap-a", "1.0.0")], vec![need("cap-b", ">=1.0.0", true)]),
        module("b", vec![offer("cap-b", "1.0.0")], vec![need("cap-a", ">=1.0.0", true)]),
        module("c", vec![], vec![need("cap-a", ">=1.0.0", true)]),
    ];
    let map = build_capability_map(&manifests);
    assert_eq!(detect_cycle(&manifests, &map), Some(vec!["a".to_string(), "b".to_string()]));
}

#[test]
fn module_between_two_cycles_is_not_a_member() {
    let manifests = vec![
        module("a", vec![offer("cap-a", "1.0.0")], vec![need("cap-b", "*", true)]),
        module("b", vec![offer("cap-b", "1.0.0")], vec![need("cap-a", "*", true)]),
        module("x", vec![offer("cap-x", "1.0.0")], vec![need("cap-a", "*", true)]),
        module("c", vec![offer("cap-c", "1.0.0")], vec![need("cap-d", "*", true), need("cap-x", "*", true)]),
        module("d", vec![offer("cap-d", "1.0.0")], vec![need("cap-c", "*", true)]),
    ];
    let map = build_capability_map(&manifests);
    assert_eq!(
        detect_cycle(&manifests, &map),
        Some(vec!["a".to_string(), "b".to_string(), "c".to_string(), "d".to_string()])
    );
}

#[test]
fn reordered_manifests_validate_alike() {
    let first = vec![
        module("a", vec![offer("cap-a", "1.0.0")], vec![need("cap-b", ">=1.0.0", true), need("gone", "*", true)]),
        module("b", vec![offer("cap-b", "0.5.0")], vec![need("cap-a", ">=1.0.0", true)]),
        module("c", vec![offer("cap-c", "1.0.0")], vec![]),
    ];
    let second = vec![
        module("c", vec![offer("cap-c", "1.0.0")], vec![]),
        module("b", vec![offer("cap-b", "0.5.0")], vec![need("cap-a", ">=1.0.0", true)]),
        module("a", vec![offer("cap-a", "1.0.0")], vec![need("cap-b", ">=1.0.0", true), need("gone", "*", true)]),
    ];
    let e1 = DepGraph::validate(&first).unwrap_err();
    let e2 = DepGraph::validate(&second).unwrap_err();
    assert_eq!(e1.len(), e2.len());
    for e in &e1 {
        if !matches!(e, GraphError::CircularDependency { .. }) {
            assert!(e2.contains(e));
        }
    }
}

#[test]
fn acyclic_chain_is_accepted() {
    let manifests = vec![
        module("a", vec![offer("cap-a", "1.0.0")], vec![need("cap-b", ">=1.0.0", true)]),
        module("b", vec![offer("cap-b", "1.0.0")], vec![need("cap-c", ">=1.0.0", true)]),
        module("c", vec![offer("cap-c", "1.0.0")], vec![]),
    ];
    let map = build_capability_map(&manifests);
    assert_eq!(detect_cycle(&manifests, &map), None);
    assert!(DepGraph::validate(&manifests).is_ok());
}

#[test]
fn errors_come_in_manifest_order_then_cycle() {
    let manifests = vec![
        module("x", vec![offer("cap-x", "1.0.0")], vec![need("cap-y", ">=1.0.0", true), need("ghost", "^1", true)]),
        module("y", vec![offer("cap-y", "0.1.0")], vec![need("cap-x", ">=1.0.0", true), need("ghost", "^1", false)]),
    ];
    let errors = DepGraph::validate(&manifests).unwrap_err();
    assert_eq!(errors.len(), 3);
    match &errors[0] {
        GraphError::SemVerMismatch { module, capability, required, provided } => {
            assert_eq!(module, "x");
            assert_eq!(capability, "cap-y");
            assert_eq!(required, ">=1.0.0");
            assert_eq!(provided, "0.1.0");
        }
        other => panic!("unexpected error {:?}", other),
    }
    match &errors[1] {
        GraphError::MissingDependency { module, capability, version_req } => {
            assert_eq!(module, "x");
            assert_eq!(capability, "ghost");
            assert_eq!(version_req, "^1");
        }
        other => panic!("unexpected error {:?}", other),
    }
    assert!(matches!(&errors[2], GraphError::CircularDependency { cycle } if cycle.len() == 2));
}

#[test]
fn unparsable_provided_version_is_a_mismatch() {
    let manifests = vec![
        module("p", vec![offer("cap", "not.a.version")], vec![]),
        module("q", vec![], vec![need("cap", ">=0.0.0", false)]),
    ];
    let errors = DepGraph::validate(&manifests).unwrap_err();
    assert_eq!(errors.len(), 1);
    assert!(matches!(&errors[0], GraphError::SemVerMismatch { provided, .. } if provided == "not.a.version"));
}

#[test]
fn last_provider_of_a_capability_wins() {
    let manifests = vec![
        module("first", vec![offer("shared", "1.0.0")], vec![]),
        module("second", vec![offer("shared", "2.0.0")], vec![]),
        module("user", vec![], vec![need("shared", "^2", true), need("nobody", "*", false)]),
    ];
    let providers = build_capability_map(&manifests);
    assert_eq!(providers.get(&"shared".to_string()), Some(&"second".to_string()));
    let versions = build_capability_version_map(&manifests);
    assert_eq!(versions.get(&"shared".to_string()), Some(&"2.0.0".to_string()));
    assert!(DepGraph::validate(&manifests).is_ok());

    let graph = DepGraph::from_manifests(&manifests);
    assert_eq!(graph.nodes.len(), 3);
    assert_eq!(graph.edges.len(), 1);
    assert_eq!(graph.edges[0].from, "user");
    assert_eq!(graph.edges[0].to, "second");
    assert_eq!(graph.edges[0].capability, "shared");
    assert_eq!(graph.nodes[2].kind, "Core");
    assert_eq!(graph.nodes[0].provides[0].version, "1.0.0");
    assert_eq!(graph.nodes[2].requires.len(), 2);
}

#[test]
fn kind_names_follow_the_variants() {
    assert_eq!(kind_name(ModuleKind::Core), "Core");
    assert_eq!(kind_name(ModuleKind::Platform), "Platform");
    assert_eq!(kind_name(ModuleKind::Extension), "Extension");
}

#[test]
fn safe_removal_keeps_required_dependencies_provided() {
    let manifests = vec![
        module("provider-a", vec![offer("shared", "1.0.0")], vec![]),
        module("provider-b", vec![offer("shared", "1.0.0")], vec![]),
        module("consumer", vec![], vec![need("shared", ">=1.0.0", true)]),
    ];
    let result = check_removal("provider-a", &manifests);
    assert!(result.safe);
    assert!(result.would_break.is_empty());
    assert_eq!(result.module_id, "provider-a");
    let remaining: Vec<Manifest> = manifests.into_iter().filter(|m| m.id != "provider-a").collect();
    assert!(DepGraph::validate(&remaining).is_ok());
}

#[test]
fn removal_lists_every_lost_dependency() {
    let manifests = vec![
        module("types", vec![offer("core", "0.1.0"), offer("extra", "0.1.0")], vec![]),
        module("db", vec![], vec![need("core", ">=0.1.0", false), need("extra", ">=0.1.0", true)]),
        module("types", vec![], vec![need("core", ">=0.1.0", true)]),
    ];
    let result = check_removal("types", &manifests);
    assert!(!result.safe);
    assert_eq!(result.would_break.len(), 2);
    assert_eq!(result.would_break[0].capability, "core");
    assert!(!result.would_break[0].required);
    assert_eq!(result.would_break[1].capability, "extra");
    assert!(result.would_break[1].required);
    assert_eq!(result.would_break[1].module_id, "db");
}

#[test]
fn mismatch_verdict_carries_both_strings() {
    let err = verdict("1.0.0", ">=2.0.0", false).unwrap_err();
    assert_eq!(err.provided, "1.0.0");
    assert_eq!(err.required, ">=2.0.0");
    assert!(verdict("1.0.0", ">=2.0.0", true).is_ok());
}

#[test]
fn startup_and_health_report_the_error_count() {
    let manifests = vec![
        module("a", vec![offer("cap-a", "1.0.0")], vec![need("cap-b", ">=1.0.0", true)]),
        module("b", vec![offer("cap-b", "1.0.0")], vec![need("cap-a", ">=1.0.0", true), need("none", "*", true)]),
    ];
    let ext = DepgraphExtension::new(manifests);
    assert_eq!(ext.validate_at_startup().unwrap_err(), "dependency graph has 2 error(s)");
    match ext.health() {
        Health::Degraded { reason } => assert_eq!(reason, "2 validation error(s)"),
        Health::Healthy => panic!("expected a degraded health"),
    }
    let metrics = ext.metrics();
    assert_eq!(metrics[0].value, 2);
    assert_eq!(metrics[1].name, "depgraph_edges");
    assert_eq!(metrics[1].value, 2);
    assert_eq!(ext.manifests().len(), 2);
}

#[test]
fn own_manifest_describes_the_extension() {
    let m = DepgraphExtension::default().manifest();
    assert_eq!(m.kind, ModuleKind::Platform);
    assert_eq!(m.provides[0].name, "dep-graph");
    assert_eq!(m.provides[1].name, "openapi-gen");
    assert_eq!(m.provides[2].name, "capability-list");
    assert_eq!(m.requires.len(), 1);
    assert_eq!(m.requires[0].capability, "types-core");
    assert!(!m.requires[0].required);
    assert_eq!(m.description, "Dependency graph validation, OpenAPI generation, capability listing");
}

#[test]
fn mcp_tools_table() {
    let tools = depgraph_tools();
    assert_eq!(tools.len(), 5);
    assert_eq!(tools[0].name, "cvg_depgraph");
    assert_eq!(tools[0].method, "GET");
    assert!(tools[0].input_schema.required.is_empty());
    assert_eq!(tools[2].min_ring, "sandboxed");
    assert_eq!(tools[4].path, "/api/depgraph/removal-check/:module_id");
    assert_eq!(tools[4].path_params, vec!["module_id".to_string()]);
    assert_eq!(tools[4].input_schema.required, vec!["module_id".to_string()]);
    assert_eq!(tools[4].min_ring, "trusted");
    assert_eq!(DepgraphExtension::default().mcp_tools().len(), 5);
}

#[test]
fn capability_listing_counts() {
    let mut a = module("a", vec![offer("x", "1.0.0"), offer("y", "2.0.0")], vec![]);
    a.agent_tools = vec![tool("t1")];
    let b = module("b", vec![offer("z", "3.0.0")], vec![]);
    let listing = list_capabilities(&[a, b]);
    assert_eq!(listing.module_count, 2);
    assert_eq!(listing.capability_count, 3);
    assert_eq!(listing.tool_count, 1);
    assert_eq!(listing.capabilities[2].module, "b");
    assert_eq!(listing.capabilities[1].version, "2.0.0");
    assert_eq!(listing.tools[0].name, "t1");
    assert_eq!(listing.tools[0].module, "a");
}

#[test]
fn openapi_operations_and_replaced_paths() {
    let mut a = module("mod-a", vec![offer("my-cap", "1.0.0")], vec![]);
    a.agent_tools = vec![tool("run-it")];
    let mut b = module("mod-b", vec![offer("my-cap", "1.0.0")], vec![]);
    b.description = "second".into();
    let spec = generate(&[a, b]);
    assert_eq!(spec.tags.len(), 2);
    assert_eq!(spec.tags[1].description, "second");
    assert_eq!(spec.paths.entries().len(), 2);
    let cap_op = spec.paths.get(&"/api/capabilities/my-cap".to_string()).unwrap();
    assert_eq!(cap_op.tag, "mod-b");
    assert_eq!(cap_op.method, "get");
    assert_eq!(cap_op.operation_id, "get_my_cap");
    assert_eq!(cap_op.response_description, "Capability info");
    assert!(cap_op.request_schema.is_none());
    let tool_op = spec.paths.get(&"/api/tools/run-it".to_string()).unwrap();
    assert_eq!(tool_op.operation_id, "invoke_run_it");
    assert_eq!(tool_op.method, "post");
    assert_eq!(tool_op.request_schema.as_ref().unwrap()["type"], "object");
    assert_eq!(spec.version, "0.1.0");
    assert_eq!(spec.description, "Auto-generated from Extension manifests");
}

#[test]
fn text_builders() {
    let mut s = String::from("n=");
    push_decimal(&mut s, 0);
    assert_eq!(s, "n=0");
    let mut s = String::new();
    push_decimal(&mut s, 1204);
    assert_eq!(s, "1204");
    let mut s = String::from("id_");
    push_underscored(&mut s, "a-b-c");
    assert_eq!(s, "id_a_b_c");
    assert_eq!(joined("/api/", "x"), "/api/x");
}

#[test]
fn string_map_replaces_values() {
    let mut m: StrMap<String> = StrMap::new();
    m.insert(&"k".to_string(), "v1".to_string());
    m.insert(&"j".to_string(), "w".to_string());
    m.insert(&"k".to_string(), "v2".to_string());
    assert_eq!(m.get(&"k".to_string()), Some(&"v2".to_string()));
    assert_eq!(m.get(&"absent".to_string()), None);
    assert_eq!(m.entries().len(), 2);
}

#[test]
fn valid_graph_has_an_edge_per_required_dependency() {
    let manifests = vec![
        module("types", vec![offer("types-core", "0.1.0")], vec![]),
        module("db", vec![offer("db-pool", "0.1.0")], vec![need("types-core", ">=0.1.0", true)]),
        module("api", vec![], vec![need("db-pool", "^0.1", true), need("types-core", "*", true)]),
    ];
    assert!(DepGraph::validate(&manifests).is_ok());
    let graph = DepGraph::from_manifests(&manifests);
    let edges: Vec<(String, String, String)> =
        graph.edges.iter().map(|e| (e.from.clone(), e.to.clone(), e.capability.clone())).collect();
    assert_eq!(
        edges,
        vec![
            ("db".to_string(), "types".to_string(), "types-core".to_string()),
            ("api".to_string(), "db".to_string(), "db-pool".to_string()),
            ("api".to_string(), "types".to_string(), "types-core".to_string()),
        ]
    );
}

#[test]
fn single_module_requiring_an_absent_capability_has_no_cycle() {
    let manifests = vec![module("lonely", vec![offer("own", "1.0.0")], vec![need("own", "^1", true), need("gone", "^1", false)])];
    let map = build_capability_map(&manifests);
    assert_eq!(detect_cycle(&manifests, &map), None);
}
