//! The system-wide listing of capabilities and agent tools.

use vstd::prelude::*;

use crate::manifest::{Capability, Manifest, ToolSpec};

verus! {

/// A capability together with the module that provides it.
pub struct CapabilityEntry {
    pub module: String,
    pub name: String,
    pub version: String,
    pub description: String,
}

/// A `CapabilityEntry` with its strings taken as character sequences.
pub struct CapabilityEntryView {
    pub module: Seq<char>,
    pub name: Seq<char>,
    pub version: Seq<char>,
    pub description: Seq<char>,
}

impl View for CapabilityEntry {
    type V = CapabilityEntryView;

    open spec fn view(&self) -> CapabilityEntryView {
        CapabilityEntryView {
            module: self.module@,
            name: self.name@,
            version: self.version@,
            description: self.description@,
        }
    }
}

/// An agent tool together with the module that exposes it.
pub struct ToolEntry {
    pub module: String,
    pub name: String,
    pub description: String,
}

/// A `ToolEntry` with its strings taken as character sequences.
pub struct ToolEntryView {
    pub module: Seq<char>,
    pub name: Seq<char>,
    pub description: Seq<char>,
}

impl View for ToolEntry {
    type V = ToolEntryView;

    open spec fn view(&self) -> ToolEntryView {
        ToolEntryView { module: self.module@, name: self.name@, description: self.description@ }
    }
}

/// Every capability and tool of the system, with counts.
pub struct CapabilityListing {
    pub capabilities: Vec<CapabilityEntry>,
    pub tools: Vec<ToolEntry>,
    pub module_count: usize,
    pub capability_count: usize,
    pub tool_count: usize,
}

/// The entries for the capabilities of module `m`.
pub open spec fn capability_entries_of(m: Manifest, caps: Seq<Capability>) -> Seq<CapabilityEntryView> {
    caps.map_values(
        |c: Capability| CapabilityEntryView { module: m.id@, name: c.name@, version: c.version@, description: c.description@ },
    )
}

/// The entries for the tools of module `m`.
pub open spec fn tool_entries_of(m: Manifest, tools: Seq<ToolSpec>) -> Seq<ToolEntryView> {
    tools.map_values(|t: ToolSpec| ToolEntryView { module: m.id@, name: t.name@, description: t.description@ })
}

/// The capability entries of a list of modules, module after module.
pub open spec fn capability_entries(ms: Seq<Manifest>) -> Seq<CapabilityEntryView>
    decreases ms.len(),
{
    if ms.len() == 0 {
        Seq::empty()
    } else {
        capability_entries(ms.drop_last()) + capability_entries_of(ms.last(), ms.last().provides@)
    }
}

/// The tool entries of a list of modules, module after module.
pub open spec fn tool_entries(ms: Seq<Manifest>) -> Seq<ToolEntryView>
    decreases ms.len(),
{
    if ms.len() == 0 {
        Seq::empty()
    } else {
        tool_entries(ms.drop_last()) + tool_entries_of(ms.last(), ms.last().agent_tools@)
    }
}

/// Lists all capabilities and tools of the modules, in manifest order.
pub fn list_capabilities(manifests: &[Manifest]) -> (res: CapabilityListing)
    ensures
        res.capabilities@.map_values(|c: CapabilityEntry| c@) == capability_entries(manifests@),
        res.tools@.map_values(|t: ToolEntry| t@) == tool_entries(manifests@),
        res.module_count == manifests@.len(),
        res.capability_count == res.capabilities@.len(),
        res.tool_count == res.tools@.len(),
{
    let ghost ms = manifests@;
    let mut caps: Vec<CapabilityEntry> = Vec::new();
    let mut tools: Vec<ToolEntry> = Vec::new();
    let n = manifests.len();
    let mut i: usize = 0;
    while i < n
        invariant
            ms == manifests@,
            n == ms.len(),
            i <= n,
            caps@.map_values(|c: CapabilityEntry| c@) == capability_entries(ms.take(i as int)),
            tools@.map_values(|t: ToolEntry| t@) == tool_entries(ms.take(i as int)),
        decreases n - i,
    {
        let m = &manifests[i];
        let ghost caps_start = caps@.map_values(|c: CapabilityEntry| c@);
        let k = m.provides.len();
        let mut j: usize = 0;
        while j < k
            invariant
                ms == manifests@,
                i < n,
                *m == ms[i as int],
                k == m.provides@.len(),
                j <= k,
                caps@.map_values(|c: CapabilityEntry| c@) == caps_start + capability_entries_of(*m, m.provides@.take(j as int)),
            decreases k - j,
        {
            let cap = &m.provides[j];
            let ghost before = caps@;
            caps.push(
                CapabilityEntry {
                    module: m.id.clone(),
                    name: cap.name.clone(),
                    version: cap.version.clone(),
                    description: cap.description.clone(),
                },
            );
            proof {
                assert(caps@.map_values(|c: CapabilityEntry| c@) =~= before.map_values(|c: CapabilityEntry| c@).push(caps@[before.len() as int]@));
                assert(capability_entries_of(*m, m.provides@.take(j + 1)) =~= capability_entries_of(*m, m.provides@.take(j as int)).push(
                    caps@[before.len() as int]@,
                ));
            }
            j = j + 1;
        }
        let ghost tools_start = tools@.map_values(|t: ToolEntry| t@);
        let t = m.agent_tools.len();
        let mut j: usize = 0;
        while j < t
            invariant
                ms == manifests@,
                i < n,
                *m == ms[i as int],
                t == m.agent_tools@.len(),
                j <= t,
                tools@.map_values(|t: ToolEntry| t@) == tools_start + tool_entries_of(*m, m.agent_tools@.take(j as int)),
            decreases t - j,
        {
            let tool = &m.agent_tools[j];
            let ghost before = tools@;
            tools.push(ToolEntry { module: m.id.clone(), name: tool.name.clone(), description: tool.description.clone() });
            proof {
                assert(tools@.map_values(|t: ToolEntry| t@) =~= before.map_values(|t: ToolEntry| t@).push(tools@[before.len() as int]@));
                assert(tool_entries_of(*m, m.agent_tools@.take(j + 1)) =~= tool_entries_of(*m, m.agent_tools@.take(j as int)).push(
                    tools@[before.len() as int]@,
                ));
            }
            j = j + 1;
        }
        proof {
            assert(m.provides@.take(k as int) =~= m.provides@);
            assert(m.agent_tools@.take(t as int) =~= m.agent_tools@);
            assert(ms.take(i + 1).drop_last() =~= ms.take(i as int));
        }
        i = i + 1;
    }
    proof {
        assert(ms.take(n as int) =~= ms);
    }
    let capability_count = caps.len();
    let tool_count = tools.len();
    CapabilityListing { capabilities: caps, tools, module_count: n, capability_count, tool_count }
}

} // verus!
