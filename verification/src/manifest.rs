//! Module manifests: what each module provides and what it requires.

use vstd::prelude::*;

verus! {

/// An outside JSON document carried through unchanged (a tool's parameter schema).
#[verifier::external_type_specification]
#[verifier::external_body]
pub struct ExJsonValue(serde_json::Value);

/// Calls `<serde_json::Value as Clone>::clone`. `Value` derives `Clone`, so the
/// copy is the same JSON document as the one it was made from.
#[verifier::external_body]
pub(crate) fn clone_json(v: &serde_json::Value) -> (res: serde_json::Value)
    ensures
        res == *v,
{
    v.clone()
}

/// The kind of a module.
#[derive(Debug, Clone, Copy, PartialEq, Eq, Structural)]
pub enum ModuleKind {
    Core,
    Platform,
    Extension,
}

/// A named, versioned capability offered by a module.
#[derive(Debug)]
pub struct Capability {
    pub name: String,
    pub version: String,
    pub description: String,
}

/// A capability that a module needs, with a SemVer requirement.
#[derive(Debug)]
pub struct Dependency {
    pub capability: String,
    pub version_req: String,
    pub required: bool,
}

/// A tool that a module exposes to agents.
#[derive(Debug)]
pub struct ToolSpec {
    pub name: String,
    pub description: String,
    pub parameters_schema: serde_json::Value,
}

/// What a module declares about itself.
#[derive(Debug)]
pub struct Manifest {
    pub id: String,
    pub description: String,
    pub version: String,
    pub kind: ModuleKind,
    pub provides: Vec<Capability>,
    pub requires: Vec<Dependency>,
    pub agent_tools: Vec<ToolSpec>,
    pub required_roles: Vec<String>,
}

impl Clone for Capability {
    fn clone(&self) -> (res: Self)
        ensures
            res == *self,
    {
        Capability {
            name: self.name.clone(),
            version: self.version.clone(),
            description: self.description.clone(),
        }
    }
}

impl Clone for Dependency {
    fn clone(&self) -> (res: Self)
        ensures
            res == *self,
    {
        Dependency {
            capability: self.capability.clone(),
            version_req: self.version_req.clone(),
            required: self.required,
        }
    }
}

impl Clone for ToolSpec {
    fn clone(&self) -> (res: Self)
        ensures
            res == *self,
    {
        ToolSpec {
            name: self.name.clone(),
            description: self.description.clone(),
            parameters_schema: clone_json(&self.parameters_schema),
        }
    }
}

/// Copies a list of capabilities element by element.
pub fn clone_capabilities(caps: &Vec<Capability>) -> (res: Vec<Capability>)
    ensures
        res@ == caps@,
{
    let res = caps.clone();
    assert(res@ =~= caps@);
    res
}

/// Copies a list of dependencies element by element.
pub fn clone_dependencies(deps: &Vec<Dependency>) -> (res: Vec<Dependency>)
    ensures
        res@ == deps@,
{
    let res = deps.clone();
    assert(res@ =~= deps@);
    res
}

impl Clone for Manifest {
    fn clone(&self) -> (res: Self)
        ensures
            res.id@ == self.id@,
            res.description@ == self.description@,
            res.version@ == self.version@,
            res.kind == self.kind,
            res.provides@ == self.provides@,
            res.requires@ == self.requires@,
            res.agent_tools@ == self.agent_tools@,
            res.required_roles@ == self.required_roles@,
    {
        let agent_tools = self.agent_tools.clone();
        let required_roles = self.required_roles.clone();
        assert(agent_tools@ =~= self.agent_tools@);
        assert(required_roles@ =~= self.required_roles@);
        Manifest {
            id: self.id.clone(),
            description: self.description.clone(),
            version: self.version.clone(),
            kind: self.kind,
            provides: clone_capabilities(&self.provides),
            requires: clone_dependencies(&self.requires),
            agent_tools,
            required_roles,
        }
    }
}

} // verus!
