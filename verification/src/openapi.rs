//! OpenAPI description of what the modules offer.
//!
//! A minimal OpenAPI 3.0 document: a tag per module, a GET path per
//! capability and a POST path per agent tool.

use vstd::prelude::*;

use crate::manifest::{clone_json, Capability, Manifest, ToolSpec};
use crate::strmap::StrMap;
use crate::text::{joined, push_underscored, underscored};

verus! {

/// One operation of the document: the method of its path and what it says.
pub struct OpenApiOperation {
    /// "get" for a capability, "post" for a tool.
    pub method: String,
    /// The id of the module it belongs to.
    pub tag: String,
    pub summary: String,
    pub operation_id: String,
    /// The schema of the request body, for a tool.
    pub request_schema: Option<serde_json::Value>,
    /// The description of the 200 response.
    pub response_description: String,
}

/// An `OpenApiOperation` with its strings taken as character sequences.
pub struct OperationView {
    pub method: Seq<char>,
    pub tag: Seq<char>,
    pub summary: Seq<char>,
    pub operation_id: Seq<char>,
    pub request_schema: Option<serde_json::Value>,
    pub response_description: Seq<char>,
}

impl View for OpenApiOperation {
    type V = OperationView;

    open spec fn view(&self) -> OperationView {
        OperationView {
            method: self.method@,
            tag: self.tag@,
            summary: self.summary@,
            operation_id: self.operation_id@,
            request_schema: self.request_schema,
            response_description: self.response_description@,
        }
    }
}

/// A tag of the document: one per module.
pub struct OpenApiTag {
    pub name: String,
    pub description: String,
}

/// An `OpenApiTag` with its strings taken as character sequences.
pub struct TagView {
    pub name: Seq<char>,
    pub description: Seq<char>,
}

impl View for OpenApiTag {
    type V = TagView;

    open spec fn view(&self) -> TagView {
        TagView { name: self.name@, description: self.description@ }
    }
}

/// The document: its header, its tags and its paths (each path once).
pub struct OpenApiDoc {
    pub openapi: String,
    pub title: String,
    pub version: String,
    pub description: String,
    pub tags: Vec<OpenApiTag>,
    pub paths: StrMap<OpenApiOperation>,
}

/// The path of a capability.
pub open spec fn capability_path(c: Capability) -> Seq<char> {
    "/api/capabilities/"@ + c.name@
}

/// The path of a tool.
pub open spec fn tool_path(t: ToolSpec) -> Seq<char> {
    "/api/tools/"@ + t.name@
}

/// The operation that describes a capability of module `m`.
pub open spec fn capability_operation(m: Manifest, c: Capability) -> OperationView {
    OperationView {
        method: "get"@,
        tag: m.id@,
        summary: c.description@,
        operation_id: "get_"@ + underscored(c.name@),
        request_schema: None,
        response_description: "Capability info"@,
    }
}

/// The operation that describes a tool of module `m`.
pub open spec fn tool_operation(m: Manifest, t: ToolSpec) -> OperationView {
    OperationView {
        method: "post"@,
        tag: m.id@,
        summary: t.description@,
        operation_id: "invoke_"@ + underscored(t.name@),
        request_schema: Some(t.parameters_schema),
        response_description: "Tool result"@,
    }
}

/// Adds the paths of a list of capabilities of module `m`, in order; a later
/// path replaces an earlier one with the same text.
pub open spec fn with_capability_paths(
    p: Map<Seq<char>, OperationView>,
    m: Manifest,
    caps: Seq<Capability>,
) -> Map<Seq<char>, OperationView>
    decreases caps.len(),
{
    if caps.len() == 0 {
        p
    } else {
        with_capability_paths(p, m, caps.drop_last()).insert(capability_path(caps.last()), capability_operation(m, caps.last()))
    }
}

/// Adds the paths of a list of tools of module `m`, in order.
pub open spec fn with_tool_paths(p: Map<Seq<char>, OperationView>, m: Manifest, tools: Seq<ToolSpec>) -> Map<
    Seq<char>,
    OperationView,
>
    decreases tools.len(),
{
    if tools.len() == 0 {
        p
    } else {
        with_tool_paths(p, m, tools.drop_last()).insert(tool_path(tools.last()), tool_operation(m, tools.last()))
    }
}

/// The paths of the document: module after module, its capabilities then its tools.
pub open spec fn api_paths(ms: Seq<Manifest>) -> Map<Seq<char>, OperationView>
    decreases ms.len(),
{
    if ms.len() == 0 {
        Map::empty()
    } else {
        with_tool_paths(
            with_capability_paths(api_paths(ms.drop_last()), ms.last(), ms.last().provides@),
            ms.last(),
            ms.last().agent_tools@,
        )
    }
}

/// The tags of the document: one per module, in order.
pub open spec fn api_tags(ms: Seq<Manifest>) -> Seq<TagView> {
    ms.map_values(|m: Manifest| TagView { name: m.id@, description: m.description@ })
}

/// Generate an OpenAPI 3.0 spec from a set of manifests.
///
/// Each module's capabilities become tagged paths, and agent tools
/// become operation descriptions under `/api/tools/{tool_name}`.
pub fn generate(manifests: &[Manifest]) -> (res: OpenApiDoc)
    ensures
        res.openapi@ == "3.0.3"@,
        res.title@ == "Convergio Daemon API"@,
        res.version@ == "0.1.0"@,
        res.description@ == "Auto-generated from Extension manifests"@,
        res.tags@.map_values(|t: OpenApiTag| t@) == api_tags(manifests@),
        res.paths.wf(),
        res.paths@ == api_paths(manifests@),
{
    let ghost ms = manifests@;
    let mut paths: StrMap<OpenApiOperation> = StrMap::new();
    let mut tags: Vec<OpenApiTag> = Vec::new();
    let n = manifests.len();
    let mut i: usize = 0;
    while i < n
        invariant
            ms == manifests@,
            n == ms.len(),
            i <= n,
            paths.wf(),
            paths@ == api_paths(ms.take(i as int)),
            tags@.map_values(|t: OpenApiTag| t@) == api_tags(ms.take(i as int)),
        decreases n - i,
    {
        let m = &manifests[i];
        let ghost tags_before = tags@;
        tags.push(OpenApiTag { name: m.id.clone(), description: m.description.clone() });
        proof {
            assert(tags@.map_values(|t: OpenApiTag| t@) =~= api_tags(ms.take(i + 1))) by {
                assert(tags_before.map_values(|t: OpenApiTag| t@).len() == tags_before.len());
                assert forall|k: int| 0 <= k < i + 1 implies #[trigger] tags@[k]@ == api_tags(ms.take(i + 1))[k] by {
                    if k < i {
                        assert(tags@[k] == tags_before[k]);
                        assert(tags_before.map_values(|t: OpenApiTag| t@)[k] == api_tags(ms.take(i as int))[k]);
                    }
                }
            }
        }

        // Capability endpoints
        let ghost start = paths@;
        let k = m.provides.len();
        let mut j: usize = 0;
        while j < k
            invariant
                ms == manifests@,
                i < n,
                *m == ms[i as int],
                k == m.provides@.len(),
                j <= k,
                paths.wf(),
                paths@ == with_capability_paths(start, *m, m.provides@.take(j as int)),
            decreases k - j,
        {
            let cap = &m.provides[j];
            let path = joined("/api/capabilities/", cap.name.as_str());
            let mut operation_id = String::from_str("get_");
            push_underscored(&mut operation_id, cap.name.as_str());
            let op = OpenApiOperation {
                method: String::from_str("get"),
                tag: m.id.clone(),
                summary: cap.description.clone(),
                operation_id,
                request_schema: None,
                response_description: String::from_str("Capability info"),
            };
            paths.insert(&path, op);
            proof {
                assert(m.provides@.take(j + 1).drop_last() =~= m.provides@.take(j as int));
            }
            j = j + 1;
        }
        proof {
            assert(m.provides@.take(k as int) =~= m.provides@);
        }

        // Agent tool endpoints
        let ghost middle = paths@;
        let t = m.agent_tools.len();
        let mut j: usize = 0;
        while j < t
            invariant
                ms == manifests@,
                i < n,
                *m == ms[i as int],
                t == m.agent_tools@.len(),
                j <= t,
                paths.wf(),
                paths@ == with_tool_paths(middle, *m, m.agent_tools@.take(j as int)),
            decreases t - j,
        {
            let tool = &m.agent_tools[j];
            let path = joined("/api/tools/", tool.name.as_str());
            let mut operation_id = String::from_str("invoke_");
            push_underscored(&mut operation_id, tool.name.as_str());
            let op = OpenApiOperation {
                method: String::from_str("post"),
                tag: m.id.clone(),
                summary: tool.description.clone(),
                operation_id,
                request_schema: Some(clone_json(&tool.parameters_schema)),
                response_description: String::from_str("Tool result"),
            };
            paths.insert(&path, op);
            proof {
                assert(m.agent_tools@.take(j + 1).drop_last() =~= m.agent_tools@.take(j as int));
            }
            j = j + 1;
        }
        proof {
            assert(m.agent_tools@.take(t as int) =~= m.agent_tools@);
            assert(ms.take(i + 1).drop_last() =~= ms.take(i as int));
        }
        i = i + 1;
    }
    proof {
        assert(ms.take(n as int) =~= ms);
    }
    OpenApiDoc {
        openapi: String::from_str("3.0.3"),
        title: String::from_str("Convergio Daemon API"),
        version: String::from_str("0.1.0"),
        description: String::from_str("Auto-generated from Extension manifests"),
        tags,
        paths,
    }
}

} // verus!
