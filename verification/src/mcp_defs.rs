//! MCP tool definitions for the dependency graph extension.

use vstd::prelude::*;

verus! {

/// The input schema of a tool: an object whose listed properties are strings.
pub struct ToolInputSchema {
    /// The properties, each of type string.
    pub string_properties: Vec<String>,
    /// The properties that must be given.
    pub required: Vec<String>,
}

/// A tool that the extension offers over MCP, and the HTTP route that serves it.
pub struct McpToolDef {
    pub name: String,
    pub description: String,
    pub method: String,
    pub path: String,
    pub input_schema: ToolInputSchema,
    pub min_ring: String,
    pub path_params: Vec<String>,
}

/// An `McpToolDef` with its strings and lists taken by their views.
pub struct McpToolView {
    pub name: Seq<char>,
    pub description: Seq<char>,
    pub method: Seq<char>,
    pub path: Seq<char>,
    pub string_properties: Seq<Seq<char>>,
    pub required: Seq<Seq<char>>,
    pub min_ring: Seq<char>,
    pub path_params: Seq<Seq<char>>,
}

impl View for McpToolDef {
    type V = McpToolView;

    open spec fn view(&self) -> McpToolView {
        McpToolView {
            name: self.name@,
            description: self.description@,
            method: self.method@,
            path: self.path@,
            string_properties: self.input_schema.string_properties.deep_view(),
            required: self.input_schema.required.deep_view(),
            min_ring: self.min_ring@,
            path_params: self.path_params.deep_view(),
        }
    }
}

/// A GET tool whose one path parameter, if any, is also its one required string property.
pub open spec fn get_tool(
    name: Seq<char>,
    description: Seq<char>,
    path: Seq<char>,
    min_ring: Seq<char>,
    params: Seq<Seq<char>>,
) -> McpToolView {
    McpToolView {
        name,
        description,
        method: "GET"@,
        path,
        string_properties: params,
        required: params,
        min_ring,
        path_params: params,
    }
}

/// The tools of the extension, in order.
pub open spec fn depgraph_tool_table() -> Seq<McpToolView> {
    seq![
        get_tool("cvg_depgraph"@, "Get the dependency graph of all extensions."@, "/api/depgraph"@, "community"@, seq![]),
        get_tool(
            "cvg_depgraph_validate"@,
            "Validate the dependency graph (detect cycles)."@,
            "/api/depgraph/validate"@,
            "community"@,
            seq![],
        ),
        get_tool("cvg_capabilities"@, "List all extension capabilities."@, "/api/capabilities"@, "sandboxed"@, seq![]),
        get_tool("cvg_openapi"@, "Get OpenAPI specification."@, "/api/openapi"@, "sandboxed"@, seq![]),
        get_tool(
            "cvg_removal_check"@,
            "Check impact of removing an extension module."@,
            "/api/depgraph/removal-check/:module_id"@,
            "trusted"@,
            seq!["module_id"@],
        ),
    ]
}

/// Copies a string into a one-element list, or makes an empty list.
fn param_list(param: Option<&str>) -> (res: Vec<String>)
    ensures
        res.deep_view() == match param {
            Some(p) => seq![p@],
            None => Seq::<Seq<char>>::empty(),
        },
{
    let mut res: Vec<String> = Vec::new();
    if let Some(p) = param {
        res.push(String::from_str(p));
    }
    proof {
        assert(res.deep_view() =~= match param {
            Some(p) => seq![p@],
            None => Seq::<Seq<char>>::empty(),
        });
    }
    res
}

fn get_tool_def(name: &str, description: &str, path: &str, min_ring: &str, param: Option<&str>) -> (res: McpToolDef)
    ensures
        res@ == get_tool(
            name@,
            description@,
            path@,
            min_ring@,
            match param {
                Some(p) => seq![p@],
                None => Seq::<Seq<char>>::empty(),
            },
        ),
{
    McpToolDef {
        name: String::from_str(name),
        description: String::from_str(description),
        method: String::from_str("GET"),
        path: String::from_str(path),
        input_schema: ToolInputSchema { string_properties: param_list(param), required: param_list(param) },
        min_ring: String::from_str(min_ring),
        path_params: param_list(param),
    }
}

/// The MCP tools of the extension.
pub fn depgraph_tools() -> (res: Vec<McpToolDef>)
    ensures
        res@.map_values(|t: McpToolDef| t@) == depgraph_tool_table(),
{
    let res = vec![
        get_tool_def("cvg_depgraph", "Get the dependency graph of all extensions.", "/api/depgraph", "community", None),
        get_tool_def(
            "cvg_depgraph_validate",
            "Validate the dependency graph (detect cycles).",
            "/api/depgraph/validate",
            "community",
            None,
        ),
        get_tool_def("cvg_capabilities", "List all extension capabilities.", "/api/capabilities", "sandboxed", None),
        get_tool_def("cvg_openapi", "Get OpenAPI specification.", "/api/openapi", "sandboxed", None),
        get_tool_def(
            "cvg_removal_check",
            "Check impact of removing an extension module.",
            "/api/depgraph/removal-check/:module_id",
            "trusted",
            Some("module_id"),
        ),
    ];
    assert(res@.map_values(|t: McpToolDef| t@) =~= depgraph_tool_table());
    res
}

} // verus!
