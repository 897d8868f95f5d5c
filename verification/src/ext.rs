//! The dependency graph extension: startup validation, its own manifest,
//! health, metrics and MCP tools.

use vstd::prelude::*;

use crate::graph::{validation_errors, DepGraph};
use crate::manifest::{Capability, Dependency, Manifest, ModuleKind, ToolSpec};
use crate::mcp_defs::{depgraph_tool_table, depgraph_tools, McpToolDef};
use crate::text::{decimal, push_decimal};

verus! {

/// The version of this package, under which its capabilities are provided.
pub const PACKAGE_VERSION: &'static str = "0.1.0";

/// How the extension is doing.
pub enum Health {
    Healthy,
    Degraded { reason: String },
}

/// A named count that the extension reports.
pub struct Metric {
    pub name: String,
    pub value: usize,
}

/// Extension that validates the dependency graph and serves graph/OpenAPI routes.
pub struct DepgraphExtension {
    manifests: Vec<Manifest>,
}

/// The message of a failed startup validation.
pub open spec fn startup_error_message(count: nat) -> Seq<char> {
    "dependency graph has "@ + decimal(count) + " error(s)"@
}

/// The reason given for a degraded health.
pub open spec fn degraded_reason(count: nat) -> Seq<char> {
    decimal(count) + " validation error(s)"@
}

/// The manifest that the extension declares for itself.
pub open spec fn is_depgraph_manifest(m: Manifest) -> bool {
    &&& m.id@ == "convergio-depgraph"@
    &&& m.description@ == "Dependency graph validation, OpenAPI generation, capability listing"@
    &&& m.version@ == PACKAGE_VERSION@
    &&& m.kind == ModuleKind::Platform
    &&& m.provides@.len() == 3
    &&& m.provides@[0].name@ == "dep-graph"@
    &&& m.provides@[0].version@ == PACKAGE_VERSION@
    &&& m.provides@[0].description@ == "Dependency graph validation and visualization"@
    &&& m.provides@[1].name@ == "openapi-gen"@
    &&& m.provides@[1].version@ == PACKAGE_VERSION@
    &&& m.provides@[1].description@ == "Auto-generated OpenAPI spec from Extension manifests"@
    &&& m.provides@[2].name@ == "capability-list"@
    &&& m.provides@[2].version@ == PACKAGE_VERSION@
    &&& m.provides@[2].description@ == "Full system capability listing"@
    &&& m.requires@.len() == 1
    &&& m.requires@[0].capability@ == "types-core"@
    &&& m.requires@[0].version_req@ == ">=0.1.0"@
    &&& !m.requires@[0].required
    &&& m.agent_tools@.len() == 0
    &&& m.required_roles@.len() == 0
}

fn capability(name: &str, description: &str) -> (res: Capability)
    ensures
        res.name@ == name@,
        res.version@ == PACKAGE_VERSION@,
        res.description@ == description@,
{
    Capability {
        name: String::from_str(name),
        version: String::from_str(PACKAGE_VERSION),
        description: String::from_str(description),
    }
}

impl Default for DepgraphExtension {
    fn default() -> (res: Self)
        ensures
            res.modules().len() == 0,
    {
        Self::new(Vec::new())
    }
}

impl DepgraphExtension {
    /// The manifests that the extension checks.
    pub closed spec fn modules(&self) -> Seq<Manifest> {
        self.manifests@
    }

    pub fn new(manifests: Vec<Manifest>) -> (res: Self)
        ensures
            res.modules() == manifests@,
    {
        Self { manifests }
    }

    /// The manifests that the extension checks.
    pub fn manifests(&self) -> (res: &Vec<Manifest>)
        ensures
            res@ == self.modules(),
    {
        &self.manifests
    }

    /// Run startup validation — call this before serving traffic.
    /// Returns Ok(()) if graph is valid, Err with details otherwise.
    pub fn validate_at_startup(&self) -> (res: Result<(), String>)
        ensures
            res.is_ok() == (validation_errors(self.modules()).len() == 0),
            res matches Err(msg) ==> msg@ == startup_error_message(validation_errors(self.modules()).len()),
    {
        match DepGraph::validate(self.manifests.as_slice()) {
            Ok(()) => Ok(()),
            Err(errors) => {
                let mut msg = String::from_str("dependency graph has ");
                push_decimal(&mut msg, errors.len());
                msg.append(" error(s)");
                Err(msg)
            },
        }
    }

    /// The manifest of the extension itself.
    pub fn manifest(&self) -> (res: Manifest)
        ensures
            is_depgraph_manifest(res),
    {
        let provides = vec![
            capability("dep-graph", "Dependency graph validation and visualization"),
            capability("openapi-gen", "Auto-generated OpenAPI spec from Extension manifests"),
            capability("capability-list", "Full system capability listing"),
        ];
        let deps = vec![
            Dependency {
                capability: String::from_str("types-core"),
                version_req: String::from_str(">=0.1.0"),
                required: false,
            },
        ];
        let agent_tools: Vec<ToolSpec> = Vec::new();
        let required_roles: Vec<String> = Vec::new();
        Manifest {
            id: String::from_str("convergio-depgraph"),
            description: String::from_str("Dependency graph validation, OpenAPI generation, capability listing"),
            version: String::from_str(PACKAGE_VERSION),
            kind: ModuleKind::Platform,
            provides,
            requires: deps,
            agent_tools,
            required_roles,
        }
    }

    /// Ok when the graph validates, degraded with the error count otherwise.
    pub fn health(&self) -> (res: Health)
        ensures
            match res {
                Health::Healthy => validation_errors(self.modules()).len() == 0,
                Health::Degraded { reason } => validation_errors(self.modules()).len() > 0 && reason@ == degraded_reason(
                    validation_errors(self.modules()).len(),
                ),
            },
    {
        match DepGraph::validate(self.manifests.as_slice()) {
            Ok(()) => Health::Healthy,
            Err(errors) => {
                let mut reason = String::new();
                push_decimal(&mut reason, errors.len());
                reason.append(" validation error(s)");
                Health::Degraded { reason }
            },
        }
    }

    /// The number of modules and of edges in the graph.
    pub fn metrics(&self) -> (res: Vec<Metric>)
        ensures
            res@.len() == 2,
            res@[0].name@ == "depgraph_modules"@,
            res@[0].value == self.modules().len(),
            res@[1].name@ == "depgraph_edges"@,
            res@[1].value == crate::graph::graph_of(self.modules()).edges.len(),
    {
        let graph = DepGraph::from_manifests(self.manifests.as_slice());
        proof {
            assert(graph.nodes@.map_values(|n: crate::graph::GraphNode| n@).len() == graph.nodes@.len());
            assert(graph.edges@.map_values(|e: crate::graph::GraphEdge| e@).len() == graph.edges@.len());
        }
        vec![
            Metric { name: String::from_str("depgraph_modules"), value: graph.nodes.len() },
            Metric { name: String::from_str("depgraph_edges"), value: graph.edges.len() },
        ]
    }

    /// The MCP tools of the extension.
    pub fn mcp_tools(&self) -> (res: Vec<McpToolDef>)
        ensures
            res@.map_values(|t: McpToolDef| t@) == depgraph_tool_table(),
    {
        depgraph_tools()
    }
}

} // verus!
