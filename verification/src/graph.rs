//! Core dependency graph: build from manifests, detect cycles, validate dependencies.

use vstd::prelude::*;

use crate::cycle::{cycle_members, cycle_reported, detect_cycle};
use crate::manifest::{clone_capabilities, clone_dependencies, Capability, Dependency, Manifest, ModuleKind};
use crate::semver_check::{check, semver_compatible};
use crate::strmap::StrMap;

verus! {

/// Registers each capability of a list under the id of the module that
/// provides it, in order; a later entry for a name replaces an earlier one.
pub open spec fn with_providers(
    m: Map<Seq<char>, Seq<char>>,
    caps: Seq<Capability>,
    id: Seq<char>,
) -> Map<Seq<char>, Seq<char>>
    decreases caps.len(),
{
    if caps.len() == 0 {
        m
    } else {
        with_providers(m, caps.drop_last(), id).insert(caps.last().name@, id)
    }
}

/// Registers each capability of a list under its version, in order.
pub open spec fn with_versions(
    m: Map<Seq<char>, Seq<char>>,
    caps: Seq<Capability>,
) -> Map<Seq<char>, Seq<char>>
    decreases caps.len(),
{
    if caps.len() == 0 {
        m
    } else {
        with_versions(m, caps.drop_last()).insert(caps.last().name@, caps.last().version@)
    }
}

/// Capability name -> id of the module that provides it; where several
/// modules provide a name, the last of them in the list wins.
pub open spec fn provider_map(ms: Seq<Manifest>) -> Map<Seq<char>, Seq<char>>
    decreases ms.len(),
{
    if ms.len() == 0 {
        Map::empty()
    } else {
        with_providers(provider_map(ms.drop_last()), ms.last().provides@, ms.last().id@)
    }
}

/// Capability name -> version under which it is provided; the last
/// declaration of a name in the list wins.
pub open spec fn version_map(ms: Seq<Manifest>) -> Map<Seq<char>, Seq<char>>
    decreases ms.len(),
{
    if ms.len() == 0 {
        Map::empty()
    } else {
        with_versions(version_map(ms.drop_last()), ms.last().provides@)
    }
}

/// Map capability name -> provider module id.
pub fn build_capability_map(manifests: &[Manifest]) -> (res: StrMap<String>)
    ensures
        res.wf(),
        res@ == provider_map(manifests@),
{
    let mut map = StrMap::new();
    let n = manifests.len();
    let mut i: usize = 0;
    while i < n
        invariant
            n == manifests@.len(),
            i <= n,
            map.wf(),
            map@ == provider_map(manifests@.take(i as int)),
        decreases n - i,
    {
        let m = &manifests[i];
        let ghost before = map@;
        let k = m.provides.len();
        let mut j: usize = 0;
        while j < k
            invariant
                k == m.provides@.len(),
                j <= k,
                map.wf(),
                map@ == with_providers(before, m.provides@.take(j as int), m.id@),
            decreases k - j,
        {
            map.insert(&m.provides[j].name, m.id.clone());
            proof {
                assert(m.provides@.take(j + 1).drop_last() =~= m.provides@.take(j as int));
            }
            j = j + 1;
        }
        proof {
            assert(m.provides@.take(k as int) =~= m.provides@);
            assert(manifests@.take(i + 1).drop_last() =~= manifests@.take(i as int));
        }
        i = i + 1;
    }
    proof {
        assert(manifests@.take(n as int) =~= manifests@);
    }
    map
}

/// Map capability name -> provided version string.
pub fn build_capability_version_map(manifests: &[Manifest]) -> (res: StrMap<String>)
    ensures
        res.wf(),
        res@ == version_map(manifests@),
{
    let mut map = StrMap::new();
    let n = manifests.len();
    let mut i: usize = 0;
    while i < n
        invariant
            n == manifests@.len(),
            i <= n,
            map.wf(),
            map@ == version_map(manifests@.take(i as int)),
        decreases n - i,
    {
        let m = &manifests[i];
        let ghost before = map@;
        let k = m.provides.len();
        let mut j: usize = 0;
        while j < k
            invariant
                k == m.provides@.len(),
                j <= k,
                map.wf(),
                map@ == with_versions(before, m.provides@.take(j as int)),
            decreases k - j,
        {
            map.insert(&m.provides[j].name, m.provides[j].version.clone());
            proof {
                assert(m.provides@.take(j + 1).drop_last() =~= m.provides@.take(j as int));
            }
            j = j + 1;
        }
        proof {
            assert(m.provides@.take(k as int) =~= m.provides@);
            assert(manifests@.take(i + 1).drop_last() =~= manifests@.take(i as int));
        }
        i = i + 1;
    }
    proof {
        assert(manifests@.take(n as int) =~= manifests@);
    }
    map
}


/// Validation error kinds produced during graph analysis.
#[derive(Debug, Clone, PartialEq)]
pub enum GraphError {
    /// A required dependency is not provided by any loaded module.
    MissingDependency { module: String, capability: String, version_req: String },
    /// Two or more modules form a dependency cycle.
    CircularDependency { cycle: Vec<String> },
    /// A capability version does not satisfy a consumer's version_req.
    SemVerMismatch { module: String, capability: String, required: String, provided: String },
}

/// A `GraphError` with its strings taken as character sequences.
pub enum GraphErrorView {
    MissingDependency { module: Seq<char>, capability: Seq<char>, version_req: Seq<char> },
    CircularDependency { cycle: Seq<Seq<char>> },
    SemVerMismatch { module: Seq<char>, capability: Seq<char>, required: Seq<char>, provided: Seq<char> },
}

impl View for GraphError {
    type V = GraphErrorView;

    open spec fn view(&self) -> GraphErrorView {
        match self {
            GraphError::MissingDependency { module, capability, version_req } => GraphErrorView::MissingDependency {
                module: module@,
                capability: capability@,
                version_req: version_req@,
            },
            GraphError::CircularDependency { cycle } => GraphErrorView::CircularDependency { cycle: cycle.deep_view() },
            GraphError::SemVerMismatch { module, capability, required, provided } => GraphErrorView::SemVerMismatch {
                module: module@,
                capability: capability@,
                required: required@,
                provided: provided@,
            },
        }
    }
}

/// A node in the serializable dependency graph.
#[derive(Debug, Clone)]
pub struct GraphNode {
    pub id: String,
    pub version: String,
    pub kind: String,
    pub provides: Vec<Capability>,
    pub requires: Vec<Dependency>,
}

/// A `GraphNode` with its strings and lists taken by their views.
pub struct GraphNodeView {
    pub id: Seq<char>,
    pub version: Seq<char>,
    pub kind: Seq<char>,
    pub provides: Seq<Capability>,
    pub requires: Seq<Dependency>,
}

impl View for GraphNode {
    type V = GraphNodeView;

    open spec fn view(&self) -> GraphNodeView {
        GraphNodeView {
            id: self.id@,
            version: self.version@,
            kind: self.kind@,
            provides: self.provides@,
            requires: self.requires@,
        }
    }
}

/// An edge in the serializable dependency graph.
#[derive(Debug, Clone)]
pub struct GraphEdge {
    pub from: String,
    pub to: String,
    pub capability: String,
}

/// A `GraphEdge` with its strings taken as character sequences.
pub struct GraphEdgeView {
    pub from: Seq<char>,
    pub to: Seq<char>,
    pub capability: Seq<char>,
}

impl View for GraphEdge {
    type V = GraphEdgeView;

    open spec fn view(&self) -> GraphEdgeView {
        GraphEdgeView { from: self.from@, to: self.to@, capability: self.capability@ }
    }
}

/// The full dependency graph.
#[derive(Debug, Clone)]
pub struct DepGraph {
    pub nodes: Vec<GraphNode>,
    pub edges: Vec<GraphEdge>,
}

/// A `DepGraph` as the sequences of views of its nodes and edges.
pub struct DepGraphView {
    pub nodes: Seq<GraphNodeView>,
    pub edges: Seq<GraphEdgeView>,
}

impl View for DepGraph {
    type V = DepGraphView;

    open spec fn view(&self) -> DepGraphView {
        DepGraphView {
            nodes: self.nodes@.map_values(|n: GraphNode| n@),
            edges: self.edges@.map_values(|e: GraphEdge| e@),
        }
    }
}

/// How a module kind is written: the name of its variant.
pub open spec fn kind_label(kind: ModuleKind) -> Seq<char> {
    match kind {
        ModuleKind::Core => "Core"@,
        ModuleKind::Platform => "Platform"@,
        ModuleKind::Extension => "Extension"@,
    }
}

/// The name of a module kind's variant.
pub fn kind_name(kind: ModuleKind) -> (res: String)
    ensures
        res@ == kind_label(kind),
{
    match kind {
        ModuleKind::Core => String::from_str("Core"),
        ModuleKind::Platform => String::from_str("Platform"),
        ModuleKind::Extension => String::from_str("Extension"),
    }
}

/// The graph node that stands for a module.
pub open spec fn node_of(m: Manifest) -> GraphNodeView {
    GraphNodeView {
        id: m.id@,
        version: m.version@,
        kind: kind_label(m.kind),
        provides: m.provides@,
        requires: m.requires@,
    }
}

/// The edge that a dependency of module `m` contributes: to the module that
/// provides the capability, when one does.
pub open spec fn edge_of(ms: Seq<Manifest>, m: Manifest, d: Dependency) -> Seq<GraphEdgeView> {
    if provider_map(ms).contains_key(d.capability@) {
        seq![GraphEdgeView { from: m.id@, to: provider_map(ms)[d.capability@], capability: d.capability@ }]
    } else {
        Seq::empty()
    }
}

/// The edges of a list of dependencies of module `m`, in order.
pub open spec fn edges_of_deps(ms: Seq<Manifest>, m: Manifest, deps: Seq<Dependency>) -> Seq<GraphEdgeView>
    decreases deps.len(),
{
    if deps.len() == 0 {
        Seq::empty()
    } else {
        edges_of_deps(ms, m, deps.drop_last()) + edge_of(ms, m, deps.last())
    }
}

/// The edges of a list of modules, module after module.
pub open spec fn edges_of_modules(ms: Seq<Manifest>, upto: Seq<Manifest>) -> Seq<GraphEdgeView>
    decreases upto.len(),
{
    if upto.len() == 0 {
        Seq::empty()
    } else {
        edges_of_modules(ms, upto.drop_last()) + edges_of_deps(ms, upto.last(), upto.last().requires@)
    }
}

/// The graph of a set of manifests: a node per module, an edge per resolved dependency.
pub open spec fn graph_of(ms: Seq<Manifest>) -> DepGraphView {
    DepGraphView { nodes: ms.map_values(|m: Manifest| node_of(m)), edges: edges_of_modules(ms, ms) }
}

/// The error, if any, that dependency `d` of module `m` gives: missing when
/// no module provides it and it is required, a mismatch when the provided
/// version does not satisfy the requirement.
pub open spec fn dependency_error(ms: Seq<Manifest>, m: Manifest, d: Dependency) -> Seq<GraphErrorView> {
    let providers = provider_map(ms);
    let versions = version_map(ms);
    if !providers.contains_key(d.capability@) {
        if d.required {
            seq![GraphErrorView::MissingDependency {
                module: m.id@,
                capability: d.capability@,
                version_req: d.version_req@,
            }]
        } else {
            Seq::empty()
        }
    } else if versions.contains_key(d.capability@) && !semver_compatible(versions[d.capability@], d.version_req@) {
        seq![GraphErrorView::SemVerMismatch {
            module: m.id@,
            capability: d.capability@,
            required: d.version_req@,
            provided: versions[d.capability@],
        }]
    } else {
        Seq::empty()
    }
}

/// The errors of a list of dependencies of module `m`, in order.
pub open spec fn errors_of_deps(ms: Seq<Manifest>, m: Manifest, deps: Seq<Dependency>) -> Seq<GraphErrorView>
    decreases deps.len(),
{
    if deps.len() == 0 {
        Seq::empty()
    } else {
        errors_of_deps(ms, m, deps.drop_last()) + dependency_error(ms, m, deps.last())
    }
}

/// The dependency errors of a list of modules, module after module.
pub open spec fn errors_of_modules(ms: Seq<Manifest>, upto: Seq<Manifest>) -> Seq<GraphErrorView>
    decreases upto.len(),
{
    if upto.len() == 0 {
        Seq::empty()
    } else {
        errors_of_modules(ms, upto.drop_last()) + errors_of_deps(ms, upto.last(), upto.last().requires@)
    }
}

/// Every error that validation finds: the dependency errors in manifest
/// order, then the cycle when some module lies on a dependency cycle.
pub open spec fn validation_errors(ms: Seq<Manifest>) -> Seq<GraphErrorView> {
    errors_of_modules(ms, ms) + if cycle_reported(ms) {
        seq![GraphErrorView::CircularDependency { cycle: cycle_members(ms) }]
    } else {
        Seq::empty()
    }
}

impl Default for DepGraph {
    fn default() -> (res: Self)
        ensures
            res.nodes@.len() == 0,
            res.edges@.len() == 0,
    {
        Self::new()
    }
}

impl DepGraph {
    /// An empty graph.
    pub fn new() -> (res: Self)
        ensures
            res.nodes@.len() == 0,
            res.edges@.len() == 0,
    {
        DepGraph { nodes: Vec::new(), edges: Vec::new() }
    }

    /// Build graph from a set of manifests.
    pub fn from_manifests(manifests: &[Manifest]) -> (res: Self)
        ensures
            res@ == graph_of(manifests@),
    {
        let ghost ms = manifests@;
        let cap_providers = build_capability_map(manifests);
        let mut nodes: Vec<GraphNode> = Vec::new();
        let mut edges: Vec<GraphEdge> = Vec::new();
        let n = manifests.len();
        let mut i: usize = 0;
        while i < n
            invariant
                ms == manifests@,
                n == ms.len(),
                i <= n,
                cap_providers.wf(),
                cap_providers@ == provider_map(ms),
                nodes@.map_values(|x: GraphNode| x@) == ms.take(i as int).map_values(|m: Manifest| node_of(m)),
                edges@.map_values(|e: GraphEdge| e@) == edges_of_modules(ms, ms.take(i as int)),
            decreases n - i,
        {
            let m = &manifests[i];
            let ghost nodes_before = nodes@;
            let node = GraphNode {
                id: m.id.clone(),
                version: m.version.clone(),
                kind: kind_name(m.kind),
                provides: clone_capabilities(&m.provides),
                requires: clone_dependencies(&m.requires),
            };
            assert(node@ == node_of(*m));
            nodes.push(node);
            proof {
                assert(nodes_before.map_values(|x: GraphNode| x@).len() == nodes_before.len());
                assert(nodes_before.len() == i);
                assert(nodes@.map_values(|x: GraphNode| x@) =~= ms.take(i + 1).map_values(|m: Manifest| node_of(m))) by {
                    assert forall|k: int| 0 <= k < i + 1 implies #[trigger] nodes@[k]@ == node_of(ms.take(i + 1)[k]) by {
                        if k < i {
                            assert(nodes@[k] == nodes_before[k]);
                            assert(nodes_before.map_values(|x: GraphNode| x@)[k] == ms.take(i as int).map_values(|m: Manifest| node_of(m))[k]);
                        }
                    }
                }
            }
            let ghost before = edges@.map_values(|e: GraphEdge| e@);
            let k = m.requires.len();
            let mut j: usize = 0;
            while j < k
                invariant
                    ms == manifests@,
                    i < n,
                    n == ms.len(),
                    *m == ms[i as int],
                    k == m.requires@.len(),
                    j <= k,
                    cap_providers.wf(),
                    cap_providers@ == provider_map(ms),
                    edges@.map_values(|e: GraphEdge| e@) == before + edges_of_deps(ms, *m, m.requires@.take(j as int)),
                decreases k - j,
            {
                let dep = &m.requires[j];
                let ghost edges_before = edges@;
                if let Some(provider) = cap_providers.get(&dep.capability) {
                    edges.push(GraphEdge { from: m.id.clone(), to: provider.clone(), capability: dep.capability.clone() });
                }
                proof {
                    assert(m.requires@.take(j + 1).drop_last() =~= m.requires@.take(j as int));
                    assert(m.requires@.take(j + 1).last() == *dep);
                    assert(edges@.map_values(|e: GraphEdge| e@) =~= edges_before.map_values(|e: GraphEdge| e@) + edge_of(ms, *m, *dep));
                }
                j = j + 1;
            }
            proof {
                assert(m.requires@.take(k as int) =~= m.requires@);
                assert(ms.take(i + 1).drop_last() =~= ms.take(i as int));
            }
            i = i + 1;
        }
        proof {
            assert(ms.take(n as int) =~= ms);
        }
        DepGraph { nodes, edges }
    }

    /// Validate the graph: check missing deps, semver, cycles.
    /// Returns Ok(()) if valid, Err with all errors found.
    pub fn validate(manifests: &[Manifest]) -> (res: Result<(), Vec<GraphError>>)
        ensures
            match res {
                Ok(()) => validation_errors(manifests@).len() == 0,
                Err(errors) => errors@.len() > 0 && errors@.map_values(|e: GraphError| e@) == validation_errors(manifests@),
            },
    {
        let ghost ms = manifests@;
        let mut errors: Vec<GraphError> = Vec::new();

        let cap_map = build_capability_map(manifests);
        let cap_versions = build_capability_version_map(manifests);

        let n = manifests.len();
        let mut i: usize = 0;
        while i < n
            invariant
                ms == manifests@,
                n == ms.len(),
                i <= n,
                cap_map.wf(),
                cap_map@ == provider_map(ms),
                cap_versions.wf(),
                cap_versions@ == version_map(ms),
                errors@.map_values(|e: GraphError| e@) == errors_of_modules(ms, ms.take(i as int)),
            decreases n - i,
        {
            let m = &manifests[i];
            let ghost before = errors@.map_values(|e: GraphError| e@);
            let k = m.requires.len();
            let mut j: usize = 0;
            while j < k
                invariant
                    ms == manifests@,
                    i < n,
                    n == ms.len(),
                    *m == ms[i as int],
                    k == m.requires@.len(),
                    j <= k,
                    cap_map.wf(),
                    cap_map@ == provider_map(ms),
                    cap_versions.wf(),
                    cap_versions@ == version_map(ms),
                    errors@.map_values(|e: GraphError| e@) == before + errors_of_deps(ms, *m, m.requires@.take(j as int)),
                decreases k - j,
            {
                let dep = &m.requires[j];
                let ghost errors_before = errors@;
                match cap_map.get(&dep.capability) {
                    None => {
                        if dep.required {
                            errors.push(
                                GraphError::MissingDependency {
                                    module: m.id.clone(),
                                    capability: dep.capability.clone(),
                                    version_req: dep.version_req.clone(),
                                },
                            );
                        }
                    },
                    Some(_provider) => {
                        if let Some(provided_ver) = cap_versions.get(&dep.capability) {
                            if let Err(e) = check(provided_ver.as_str(), dep.version_req.as_str()) {
                                errors.push(
                                    GraphError::SemVerMismatch {
                                        module: m.id.clone(),
                                        capability: dep.capability.clone(),
                                        required: dep.version_req.clone(),
                                        provided: e.provided,
                                    },
                                );
                            }
                        }
                    },
                }
                proof {
                    assert(m.requires@.take(j + 1).drop_last() =~= m.requires@.take(j as int));
                    assert(m.requires@.take(j + 1).last() == *dep);
                    assert(errors@.map_values(|e: GraphError| e@) =~= errors_before.map_values(|e: GraphError| e@) + dependency_error(ms, *m, *dep));
                }
                j = j + 1;
            }
            proof {
                assert(m.requires@.take(k as int) =~= m.requires@);
                assert(ms.take(i + 1).drop_last() =~= ms.take(i as int));
            }
            i = i + 1;
        }
        proof {
            assert(ms.take(n as int) =~= ms);
        }

        let ghost dep_errors = errors@;
        if let Some(cycle) = detect_cycle(manifests, &cap_map) {
            errors.push(GraphError::CircularDependency { cycle });
            proof {
                assert(errors@.map_values(|e: GraphError| e@) =~= dep_errors.map_values(|e: GraphError| e@) + seq![GraphErrorView::CircularDependency { cycle: cycle_members(ms) }]);
            }
        } else {
            proof {
                assert(errors@.map_values(|e: GraphError| e@) =~= dep_errors.map_values(|e: GraphError| e@) + Seq::<GraphErrorView>::empty());
            }
        }

        if errors.len() == 0 {
            Ok(())
        } else {
            Err(errors)
        }
    }
}

} // verus!
