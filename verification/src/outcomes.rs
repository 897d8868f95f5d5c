//! What each operation's result holds, stated field by field against the manifests.

use vstd::prelude::*;

use crate::catalog::{capability_entries, capability_entries_of, tool_entries, tool_entries_of, CapabilityEntryView, ToolEntryView};
use crate::cycle::{
    chain_link, cycle_members, cycle_reported, depends_on, is_dependency_chain, resolves_to,
};
use crate::graph::{graph_of, provider_map};
use crate::laws::{law_cycle_members_reported, lemma_first_with_id, lemma_provider_map};
use crate::manifest::{Capability, Dependency, Manifest, ModuleKind, ToolSpec};
use crate::openapi::{
    api_paths, capability_operation, capability_path, tool_operation, tool_path, with_capability_paths, with_tool_paths,
    OperationView,
};
use crate::text::underscored;
use crate::removal::{broken_of_deps, broken_of_modules, declares, loses_provider, removal_of, BrokenDependentView};

verus! {

/// Any dependency, optional or required, whose capability is provided by
/// another module makes its module depend on that provider.
pub proof fn law_every_dependency_links(ms: Seq<Manifest>, i: int, j: int)
    requires
        0 <= i < ms.len(),
        0 <= j < ms[i].requires@.len(),
        provider_map(ms).contains_key(ms[i].requires@[j].capability@),
        provider_map(ms)[ms[i].requires@[j].capability@] != ms[i].id@,
    ensures
        depends_on(ms, ms[i].id@, provider_map(ms)[ms[i].requires@[j].capability@]),
{
    let c = ms[i].requires@[j].capability@;
    let b = provider_map(ms)[c];
    lemma_provider_map(ms, c);
    let x = choose|x: int| 0 <= x < ms.len() && declares(#[trigger] ms[x].provides@, c) && ms[x].id@ == provider_map(ms)[c];
    assert(crate::cycle::is_module_id(ms, b));
    assert(resolves_to(ms, ms[i].requires@[j], ms[i].id@, b));
}

/// Two modules that each require, optionally or not, a capability that the
/// other one provides both lie on a reported cycle.
pub proof fn law_mutual_requirements_reported(ms: Seq<Manifest>, i: int, j: int, x: int, y: int)
    requires
        0 <= i < ms.len(),
        0 <= x < ms.len(),
        ms[i].id@ != ms[x].id@,
        0 <= j < ms[i].requires@.len(),
        0 <= y < ms[x].requires@.len(),
        provider_map(ms).contains_key(ms[i].requires@[j].capability@),
        provider_map(ms)[ms[i].requires@[j].capability@] == ms[x].id@,
        provider_map(ms).contains_key(ms[x].requires@[y].capability@),
        provider_map(ms)[ms[x].requires@[y].capability@] == ms[i].id@,
    ensures
        cycle_reported(ms),
        cycle_members(ms).contains(ms[i].id@),
        cycle_members(ms).contains(ms[x].id@),
{
    let a = ms[i].id@;
    let b = ms[x].id@;
    law_every_dependency_links(ms, i, j);
    law_every_dependency_links(ms, x, y);
    let path = seq![a, b, a];
    assert(chain_link(ms, path, 0));
    assert(chain_link(ms, path, 1));
    assert(is_dependency_chain(ms, path));
    law_cycle_members_reported(ms, path);
    assert(path[0] == a && path[1] == b);
}

/// The facts behind a broken dependent `b` of removing the modules with id
/// `t`: a module with id `t` declares `b`'s capability, no other module
/// does, and `b` names another module that requires that capability, as
/// required or as optional as `b` says.
pub open spec fn breakage_explained(ms: Seq<Manifest>, t: Seq<char>, b: BrokenDependentView) -> bool {
    &&& exists|x: int, c: int|
        0 <= x < ms.len() && ms[x].id@ == t && 0 <= c < ms[x].provides@.len() && (#[trigger] ms[x].provides@[c]).name@
            == b.capability
    &&& forall|x: int, c: int|
        0 <= x < ms.len() && ms[x].id@ != t && 0 <= c < ms[x].provides@.len() ==> (#[trigger] ms[x].provides@[c]).name@
            != b.capability
    &&& b.module_id != t
    &&& exists|i: int, j: int|
        0 <= i < ms.len() && ms[i].id@ == b.module_id && 0 <= j < ms[i].requires@.len()
            && (#[trigger] ms[i].requires@[j]).capability@ == b.capability && ms[i].requires@[j].required == b.required
}

proof fn lemma_broken_from_deps(ms: Seq<Manifest>, t: Seq<char>, m: Manifest, deps: Seq<Dependency>, b: BrokenDependentView)
    requires
        broken_of_deps(ms, t, m, deps).contains(b),
    ensures
        exists|j: int|
            0 <= j < deps.len() && loses_provider(ms, t, #[trigger] deps[j]) && b.module_id == m.id@ && b.capability
                == deps[j].capability@ && b.required == deps[j].required,
    decreases deps.len(),
{
    let front = broken_of_deps(ms, t, m, deps.drop_last());
    let all = broken_of_deps(ms, t, m, deps);
    let k = choose|k: int| 0 <= k < all.len() && all[k] == b;
    if k < front.len() {
        assert(all[k] == front[k]);
        lemma_broken_from_deps(ms, t, m, deps.drop_last(), b);
        let j = choose|j: int|
            0 <= j < deps.drop_last().len() && loses_provider(ms, t, #[trigger] deps.drop_last()[j]) && b.module_id == m.id@
                && b.capability == deps.drop_last()[j].capability@ && b.required == deps.drop_last()[j].required;
        assert(deps[j] == deps.drop_last()[j]);
    } else {
        assert(deps[deps.len() - 1] == deps.last());
    }
}

proof fn lemma_broken_from_modules(ms: Seq<Manifest>, t: Seq<char>, upto: Seq<Manifest>, b: BrokenDependentView)
    requires
        broken_of_modules(ms, t, upto).contains(b),
    ensures
        exists|i: int, j: int|
            0 <= i < upto.len() && upto[i].id@ != t && 0 <= j < upto[i].requires@.len() && loses_provider(
                ms,
                t,
                #[trigger] upto[i].requires@[j],
            ) && b.module_id == upto[i].id@ && b.capability == upto[i].requires@[j].capability@ && b.required
                == upto[i].requires@[j].required,
    decreases upto.len(),
{
    let p = upto.drop_last();
    let m = upto.last();
    let front = broken_of_modules(ms, t, p);
    let all = broken_of_modules(ms, t, upto);
    let k = choose|k: int| 0 <= k < all.len() && all[k] == b;
    if k < front.len() {
        assert(all[k] == front[k]);
        lemma_broken_from_modules(ms, t, p, b);
        let (i, j) = choose|i: int, j: int|
            0 <= i < p.len() && p[i].id@ != t && 0 <= j < p[i].requires@.len() && loses_provider(
                ms,
                t,
                #[trigger] p[i].requires@[j],
            ) && b.module_id == p[i].id@ && b.capability == p[i].requires@[j].capability@ && b.required
                == p[i].requires@[j].required;
        assert(upto[i] == p[i]);
    } else {
        assert(m.id@ != t);
        let back = broken_of_deps(ms, t, m, m.requires@);
        assert(all == front + back);
        assert(back[k - front.len()] == b);
        lemma_broken_from_deps(ms, t, m, m.requires@, b);
        let j = choose|j: int|
            0 <= j < m.requires@.len() && loses_provider(ms, t, #[trigger] m.requires@[j]) && b.module_id == m.id@
                && b.capability == m.requires@[j].capability@ && b.required == m.requires@[j].required;
        assert(upto[upto.len() - 1] == m);
        assert(upto[upto.len() - 1].requires@[j] == m.requires@[j]);
    }
}

/// Every dependent that a removal would break is explained by the manifests:
/// the removed module declares the capability, no other module declares it,
/// and a remaining module requires it. The removal is safe exactly when no
/// such dependent is required.
pub proof fn law_broken_dependents_explained(ms: Seq<Manifest>, t: Seq<char>)
    ensures
        removal_of(ms, t).module_id == t,
        forall|k: int|
            0 <= k < removal_of(ms, t).would_break.len() ==> breakage_explained(
                ms,
                t,
                #[trigger] removal_of(ms, t).would_break[k],
            ),
        removal_of(ms, t).safe == forall|k: int|
            0 <= k < removal_of(ms, t).would_break.len() ==> !(#[trigger] removal_of(ms, t).would_break[k]).required,
{
    let bs = removal_of(ms, t).would_break;
    assert forall|k: int| 0 <= k < bs.len() implies breakage_explained(ms, t, #[trigger] bs[k]) by {
        let b = bs[k];
        assert(bs.contains(b));
        lemma_broken_from_modules(ms, t, ms, b);
        let (i, j) = choose|i: int, j: int|
            0 <= i < ms.len() && ms[i].id@ != t && 0 <= j < ms[i].requires@.len() && loses_provider(
                ms,
                t,
                #[trigger] ms[i].requires@[j],
            ) && b.module_id == ms[i].id@ && b.capability == ms[i].requires@[j].capability@ && b.required
                == ms[i].requires@[j].required;
        lemma_first_with_id(ms, t);
        let x = crate::removal::first_with_id(ms, t)->0;
        let c = choose|c: int| 0 <= c < ms[x].provides@.len() && ms[x].provides@[c].name@ == b.capability;
        assert(ms[x].provides@[c].name@ == b.capability);
        assert forall|y: int, c2: int|
            0 <= y < ms.len() && ms[y].id@ != t && 0 <= c2 < ms[y].provides@.len() implies (#[trigger] ms[y].provides@[c2]).name@
                != b.capability by {
            if ms[y].provides@[c2].name@ == b.capability {
                assert(declares(ms[y].provides@, b.capability));
            }
        }
        assert(ms[i].requires@[j].capability@ == b.capability);
    }
}

/// Each node of the graph mirrors its module: same id, version, capabilities
/// and dependencies, and the name of the module's kind.
pub proof fn law_nodes_mirror_modules(ms: Seq<Manifest>)
    ensures
        graph_of(ms).nodes.len() == ms.len(),
        forall|i: int|
            0 <= i < ms.len() ==> {
                let n = #[trigger] graph_of(ms).nodes[i];
                &&& n.id == ms[i].id@
                &&& n.version == ms[i].version@
                &&& n.provides == ms[i].provides@
                &&& n.requires == ms[i].requires@
                &&& ms[i].kind == ModuleKind::Core ==> n.kind == "Core"@
                &&& ms[i].kind == ModuleKind::Platform ==> n.kind == "Platform"@
                &&& ms[i].kind == ModuleKind::Extension ==> n.kind == "Extension"@
            },
{
}

proof fn lemma_capability_entries_of(m: Manifest, caps: Seq<crate::manifest::Capability>)
    ensures
        capability_entries_of(m, caps).len() == caps.len(),
        forall|k: int| 0 <= k < caps.len() ==> #[trigger] capability_entries_of(m, caps)[k] == (CapabilityEntryView {
            module: m.id@,
            name: caps[k].name@,
            version: caps[k].version@,
            description: caps[k].description@,
        }),
{
}

proof fn lemma_tool_entries_of(m: Manifest, tools: Seq<crate::manifest::ToolSpec>)
    ensures
        tool_entries_of(m, tools).len() == tools.len(),
        forall|k: int| 0 <= k < tools.len() ==> #[trigger] tool_entries_of(m, tools)[k] == (ToolEntryView {
            module: m.id@,
            name: tools[k].name@,
            description: tools[k].description@,
        }),
{
}

/// The capability entry that lists capability `k` of module `i`.
pub open spec fn listed_capability(ms: Seq<Manifest>, i: int, k: int) -> CapabilityEntryView {
    CapabilityEntryView {
        module: ms[i].id@,
        name: ms[i].provides@[k].name@,
        version: ms[i].provides@[k].version@,
        description: ms[i].provides@[k].description@,
    }
}

/// The tool entry that lists tool `k` of module `i`.
pub open spec fn listed_tool(ms: Seq<Manifest>, i: int, k: int) -> ToolEntryView {
    ToolEntryView { module: ms[i].id@, name: ms[i].agent_tools@[k].name@, description: ms[i].agent_tools@[k].description@ }
}

/// Entry `e` lists some capability declaration, field for field.
pub open spec fn declared_capability(ms: Seq<Manifest>, e: CapabilityEntryView) -> bool {
    exists|i: int, k: int| 0 <= i < ms.len() && 0 <= k < ms[i].provides@.len() && e == #[trigger] listed_capability(ms, i, k)
}

/// Entry `e` lists some tool declaration, field for field.
pub open spec fn declared_tool(ms: Seq<Manifest>, e: ToolEntryView) -> bool {
    exists|i: int, k: int| 0 <= i < ms.len() && 0 <= k < ms[i].agent_tools@.len() && e == #[trigger] listed_tool(ms, i, k)
}

proof fn lemma_capability_listing(ms: Seq<Manifest>)
    ensures
        forall|i: int, k: int|
            0 <= i < ms.len() && 0 <= k < ms[i].provides@.len() ==> capability_entries(ms).contains(
                #[trigger] listed_capability(ms, i, k),
            ),
        forall|e: int|
            0 <= e < capability_entries(ms).len() ==> declared_capability(ms, #[trigger] capability_entries(ms)[e]),
    decreases ms.len(),
{
    if ms.len() > 0 {
        let p = ms.drop_last();
        let m = ms.last();
        let last = ms.len() - 1;
        lemma_capability_listing(p);
        lemma_capability_entries_of(m, m.provides@);
        let front = capability_entries(p);
        let back = capability_entries_of(m, m.provides@);
        assert(capability_entries(ms) == front + back);
        assert(ms[last] == m);
        assert forall|i: int, k: int| 0 <= i < ms.len() && 0 <= k < ms[i].provides@.len() implies capability_entries(ms).contains(
            #[trigger] listed_capability(ms, i, k),
        ) by {
            if i < last {
                assert(p[i] == ms[i]);
                assert(listed_capability(p, i, k) == listed_capability(ms, i, k));
                let e = choose|e: int| 0 <= e < front.len() && front[e] == listed_capability(p, i, k);
                assert((front + back)[e] == front[e]);
            } else {
                assert(back[k] == listed_capability(ms, i, k));
                assert((front + back)[front.len() + k] == back[k]);
            }
        }
        assert forall|e: int| 0 <= e < capability_entries(ms).len() implies declared_capability(ms, #[trigger] capability_entries(ms)[e]) by {
            if e < front.len() {
                assert((front + back)[e] == front[e]);
                assert(declared_capability(p, front[e]));
                let (i, k) = choose|i: int, k: int|
                    0 <= i < p.len() && 0 <= k < p[i].provides@.len() && front[e] == #[trigger] listed_capability(p, i, k);
                assert(p[i] == ms[i]);
                assert(listed_capability(p, i, k) == listed_capability(ms, i, k));
            } else {
                let k = e - front.len();
                assert((front + back)[e] == back[k]);
                assert(back[k] == listed_capability(ms, last, k));
                assert(ms[last].provides@.len() == back.len());
            }
        }
    }
}

proof fn lemma_tool_listing(ms: Seq<Manifest>)
    ensures
        forall|i: int, k: int|
            0 <= i < ms.len() && 0 <= k < ms[i].agent_tools@.len() ==> tool_entries(ms).contains(#[trigger] listed_tool(ms, i, k)),
        forall|e: int| 0 <= e < tool_entries(ms).len() ==> declared_tool(ms, #[trigger] tool_entries(ms)[e]),
    decreases ms.len(),
{
    if ms.len() > 0 {
        let p = ms.drop_last();
        let m = ms.last();
        let last = ms.len() - 1;
        lemma_tool_listing(p);
        lemma_tool_entries_of(m, m.agent_tools@);
        let front = tool_entries(p);
        let back = tool_entries_of(m, m.agent_tools@);
        assert(tool_entries(ms) == front + back);
        assert(ms[last] == m);
        assert forall|i: int, k: int| 0 <= i < ms.len() && 0 <= k < ms[i].agent_tools@.len() implies tool_entries(ms).contains(
            #[trigger] listed_tool(ms, i, k),
        ) by {
            if i < last {
                assert(p[i] == ms[i]);
                assert(listed_tool(p, i, k) == listed_tool(ms, i, k));
                let e = choose|e: int| 0 <= e < front.len() && front[e] == listed_tool(p, i, k);
                assert((front + back)[e] == front[e]);
            } else {
                assert(back[k] == listed_tool(ms, i, k));
                assert((front + back)[front.len() + k] == back[k]);
            }
        }
        assert forall|e: int| 0 <= e < tool_entries(ms).len() implies declared_tool(ms, #[trigger] tool_entries(ms)[e]) by {
            if e < front.len() {
                assert((front + back)[e] == front[e]);
                assert(declared_tool(p, front[e]));
                let (i, k) = choose|i: int, k: int|
                    0 <= i < p.len() && 0 <= k < p[i].agent_tools@.len() && front[e] == #[trigger] listed_tool(p, i, k);
                assert(p[i] == ms[i]);
                assert(listed_tool(p, i, k) == listed_tool(ms, i, k));
            } else {
                let k = e - front.len();
                assert((front + back)[e] == back[k]);
                assert(back[k] == listed_tool(ms, last, k));
                assert(ms[last].agent_tools@.len() == back.len());
            }
        }
    }
}

/// The listing holds exactly the capabilities and tools that the manifests
/// declare, each entry carrying the module's id and the declaration's own
/// name, version and description.
pub proof fn law_listing_matches_declarations(ms: Seq<Manifest>)
    ensures
        forall|i: int, k: int|
            0 <= i < ms.len() && 0 <= k < ms[i].provides@.len() ==> capability_entries(ms).contains(
                #[trigger] listed_capability(ms, i, k),
            ),
        forall|e: int|
            0 <= e < capability_entries(ms).len() ==> declared_capability(ms, #[trigger] capability_entries(ms)[e]),
        forall|i: int, k: int|
            0 <= i < ms.len() && 0 <= k < ms[i].agent_tools@.len() ==> tool_entries(ms).contains(#[trigger] listed_tool(ms, i, k)),
        forall|e: int| 0 <= e < tool_entries(ms).len() ==> declared_tool(ms, #[trigger] tool_entries(ms)[e]),
{
    lemma_capability_listing(ms);
    lemma_tool_listing(ms);
}


proof fn lemma_concat_cancel(a: Seq<char>, b1: Seq<char>, b2: Seq<char>)
    ensures
        (a + b1 == a + b2) <==> (b1 == b2),
{
    if a + b1 == a + b2 {
        assert(b1 =~= (a + b1).skip(a.len() as int));
        assert(b2 =~= (a + b2).skip(a.len() as int));
    }
}

proof fn lemma_paths_differ(n1: Seq<char>, n2: Seq<char>)
    ensures
        "/api/tools/"@ + n1 != "/api/capabilities/"@ + n2,
{
    reveal_strlit("/api/tools/");
    reveal_strlit("/api/capabilities/");
    assert(("/api/tools/"@ + n1)[5] == 't');
    assert(("/api/capabilities/"@ + n2)[5] == 'c');
}

proof fn lemma_declares_last(caps: Seq<Capability>, n: Seq<char>)
    requires
        caps.len() > 0,
    ensures
        declares(caps, n) <==> (declares(caps.drop_last(), n) || caps.last().name@ == n),
{
    let p = caps.drop_last();
    if declares(caps, n) {
        let k = choose|k: int| 0 <= k < caps.len() && caps[k].name@ == n;
        if k < caps.len() - 1 {
            assert(p[k] == caps[k]);
        }
    }
    if declares(p, n) {
        let k = choose|k: int| 0 <= k < p.len() && p[k].name@ == n;
        assert(caps[k] == p[k]);
    }
    assert(caps[caps.len() - 1] == caps.last());
}

/// A module's tools with the name `n`.
pub open spec fn has_tool(tools: Seq<ToolSpec>, n: Seq<char>) -> bool {
    exists|k: int| 0 <= k < tools.len() && tools[k].name@ == n
}

proof fn lemma_has_tool_last(tools: Seq<ToolSpec>, n: Seq<char>)
    requires
        tools.len() > 0,
    ensures
        has_tool(tools, n) <==> (has_tool(tools.drop_last(), n) || tools.last().name@ == n),
{
    let p = tools.drop_last();
    if has_tool(tools, n) {
        let k = choose|k: int| 0 <= k < tools.len() && tools[k].name@ == n;
        if k < tools.len() - 1 {
            assert(p[k] == tools[k]);
        }
    }
    if has_tool(p, n) {
        let k = choose|k: int| 0 <= k < p.len() && p[k].name@ == n;
        assert(tools[k] == p[k]);
    }
    assert(tools[tools.len() - 1] == tools.last());
}

proof fn lemma_capability_inserts(p: Map<Seq<char>, OperationView>, m: Manifest, caps: Seq<Capability>, n: Seq<char>)
    ensures
        with_capability_paths(p, m, caps).contains_key("/api/capabilities/"@ + n) <==> (p.contains_key(
            "/api/capabilities/"@ + n,
        ) || declares(caps, n)),
        declares(caps, n) ==> exists|k: int|
            0 <= k < caps.len() && (#[trigger] caps[k]).name@ == n && with_capability_paths(p, m, caps)["/api/capabilities/"@ + n]
                == capability_operation(m, caps[k]),
        !declares(caps, n) ==> with_capability_paths(p, m, caps)["/api/capabilities/"@ + n] == p["/api/capabilities/"@ + n],
        forall|n2: Seq<char>|
            #[trigger] with_capability_paths(p, m, caps).contains_key("/api/tools/"@ + n2) == p.contains_key("/api/tools/"@ + n2)
                && with_capability_paths(p, m, caps)["/api/tools/"@ + n2] == p["/api/tools/"@ + n2],
    decreases caps.len(),
{
    if caps.len() > 0 {
        let q = caps.drop_last();
        let c = caps.last();
        lemma_capability_inserts(p, m, q, n);
        lemma_declares_last(caps, n);
        lemma_concat_cancel("/api/capabilities/"@, c.name@, n);
        assert forall|n2: Seq<char>|
            #[trigger] with_capability_paths(p, m, caps).contains_key("/api/tools/"@ + n2) == p.contains_key("/api/tools/"@ + n2)
                && with_capability_paths(p, m, caps)["/api/tools/"@ + n2] == p["/api/tools/"@ + n2] by {
            lemma_paths_differ(n2, c.name@);
            assert(with_capability_paths(p, m, q).contains_key("/api/tools/"@ + n2) == p.contains_key("/api/tools/"@ + n2));
        }
        if declares(q, n) && c.name@ != n {
            let k = choose|k: int|
                0 <= k < q.len() && (#[trigger] q[k]).name@ == n && with_capability_paths(p, m, q)["/api/capabilities/"@ + n]
                    == capability_operation(m, q[k]);
            assert(caps[k] == q[k]);
        }
        if c.name@ == n {
            assert(caps[caps.len() - 1] == c);
        }
    }
}

proof fn lemma_tool_inserts(p: Map<Seq<char>, OperationView>, m: Manifest, tools: Seq<ToolSpec>, n: Seq<char>)
    ensures
        with_tool_paths(p, m, tools).contains_key("/api/tools/"@ + n) <==> (p.contains_key("/api/tools/"@ + n) || has_tool(
            tools,
            n,
        )),
        has_tool(tools, n) ==> exists|k: int|
            0 <= k < tools.len() && (#[trigger] tools[k]).name@ == n && with_tool_paths(p, m, tools)["/api/tools/"@ + n]
                == tool_operation(m, tools[k]),
        !has_tool(tools, n) ==> with_tool_paths(p, m, tools)["/api/tools/"@ + n] == p["/api/tools/"@ + n],
        forall|n2: Seq<char>|
            #[trigger] with_tool_paths(p, m, tools).contains_key("/api/capabilities/"@ + n2) == p.contains_key(
                "/api/capabilities/"@ + n2,
            ) && with_tool_paths(p, m, tools)["/api/capabilities/"@ + n2] == p["/api/capabilities/"@ + n2],
    decreases tools.len(),
{
    if tools.len() > 0 {
        let q = tools.drop_last();
        let t = tools.last();
        lemma_tool_inserts(p, m, q, n);
        lemma_has_tool_last(tools, n);
        lemma_concat_cancel("/api/tools/"@, t.name@, n);
        assert forall|n2: Seq<char>|
            #[trigger] with_tool_paths(p, m, tools).contains_key("/api/capabilities/"@ + n2) == p.contains_key(
                "/api/capabilities/"@ + n2,
            ) && with_tool_paths(p, m, tools)["/api/capabilities/"@ + n2] == p["/api/capabilities/"@ + n2] by {
            lemma_paths_differ(t.name@, n2);
            assert(with_tool_paths(p, m, q).contains_key("/api/capabilities/"@ + n2) == p.contains_key(
                "/api/capabilities/"@ + n2,
            ));
        }
        if has_tool(q, n) && t.name@ != n {
            let k = choose|k: int|
                0 <= k < q.len() && (#[trigger] q[k]).name@ == n && with_tool_paths(p, m, q)["/api/tools/"@ + n]
                    == tool_operation(m, q[k]);
            assert(tools[k] == q[k]);
        }
        if t.name@ == n {
            assert(tools[tools.len() - 1] == t);
        }
    }
}

/// The operation `op` describes a declaration of capability `n`: a GET tagged
/// with the declaring module, summarised by the capability's description.
pub open spec fn documented_capability(ms: Seq<Manifest>, n: Seq<char>, op: OperationView) -> bool {
    exists|x: int, y: int|
        0 <= x < ms.len() && 0 <= y < ms[x].provides@.len() && (#[trigger] ms[x].provides@[y]).name@ == n && op.method
            == "get"@ && op.tag == ms[x].id@ && op.summary == ms[x].provides@[y].description@ && op.operation_id == "get_"@
            + underscored(n) && op.request_schema is None && op.response_description == "Capability info"@
}

/// The operation `op` describes a declaration of tool `n`: a POST tagged
/// with the declaring module, summarised by the tool's description, whose
/// request body has the tool's parameter schema.
pub open spec fn documented_tool(ms: Seq<Manifest>, n: Seq<char>, op: OperationView) -> bool {
    exists|x: int, y: int|
        0 <= x < ms.len() && 0 <= y < ms[x].agent_tools@.len() && (#[trigger] ms[x].agent_tools@[y]).name@ == n
            && op.method == "post"@ && op.tag == ms[x].id@ && op.summary == ms[x].agent_tools@[y].description@
            && op.operation_id == "invoke_"@ + underscored(n) && op.request_schema == Some(
            ms[x].agent_tools@[y].parameters_schema,
        ) && op.response_description == "Tool result"@
}

proof fn lemma_api_capability(ms: Seq<Manifest>, n: Seq<char>)
    ensures
        api_paths(ms).contains_key("/api/capabilities/"@ + n) <==> exists|x: int|
            0 <= x < ms.len() && declares(#[trigger] ms[x].provides@, n),
        api_paths(ms).contains_key("/api/capabilities/"@ + n) ==> documented_capability(
            ms,
            n,
            api_paths(ms)["/api/capabilities/"@ + n],
        ),
    decreases ms.len(),
{
    if ms.len() > 0 {
        let p = ms.drop_last();
        let m = ms.last();
        let key = "/api/capabilities/"@ + n;
        lemma_api_capability(p, n);
        let base = api_paths(p);
        let mid = with_capability_paths(base, m, m.provides@);
        lemma_capability_inserts(base, m, m.provides@, n);
        lemma_tool_inserts(mid, m, m.agent_tools@, n);
        assert(api_paths(ms).contains_key(key) == mid.contains_key(key) && api_paths(ms)[key] == mid[key]);
        assert(ms[ms.len() - 1] == m);
        if exists|x: int| 0 <= x < p.len() && declares(#[trigger] p[x].provides@, n) {
            let x = choose|x: int| 0 <= x < p.len() && declares(#[trigger] p[x].provides@, n);
            assert(ms[x] == p[x]);
        }
        if exists|x: int| 0 <= x < ms.len() && declares(#[trigger] ms[x].provides@, n) {
            let x = choose|x: int| 0 <= x < ms.len() && declares(#[trigger] ms[x].provides@, n);
            if x < ms.len() - 1 {
                assert(p[x] == ms[x]);
            }
        }
        if api_paths(ms).contains_key(key) {
            if declares(m.provides@, n) {
                let k = choose|k: int|
                    0 <= k < m.provides@.len() && (#[trigger] m.provides@[k]).name@ == n && mid[key] == capability_operation(
                        m,
                        m.provides@[k],
                    );
                assert(ms[ms.len() - 1].provides@[k] == m.provides@[k]);
            } else {
                assert(documented_capability(p, n, base[key]));
                let (x, y) = choose|x: int, y: int|
                    0 <= x < p.len() && 0 <= y < p[x].provides@.len() && (#[trigger] p[x].provides@[y]).name@ == n
                        && base[key].method == "get"@ && base[key].tag == p[x].id@ && base[key].summary
                        == p[x].provides@[y].description@ && base[key].operation_id == "get_"@ + underscored(n)
                        && base[key].request_schema is None && base[key].response_description == "Capability info"@;
                assert(ms[x] == p[x]);
                assert(ms[x].provides@[y] == p[x].provides@[y]);
            }
        }
    }
}

proof fn lemma_api_tool(ms: Seq<Manifest>, n: Seq<char>)
    ensures
        api_paths(ms).contains_key("/api/tools/"@ + n) <==> exists|x: int|
            0 <= x < ms.len() && has_tool(#[trigger] ms[x].agent_tools@, n),
        api_paths(ms).contains_key("/api/tools/"@ + n) ==> documented_tool(ms, n, api_paths(ms)["/api/tools/"@ + n]),
    decreases ms.len(),
{
    if ms.len() > 0 {
        let p = ms.drop_last();
        let m = ms.last();
        let key = "/api/tools/"@ + n;
        lemma_api_tool(p, n);
        let base = api_paths(p);
        let mid = with_capability_paths(base, m, m.provides@);
        lemma_capability_inserts(base, m, m.provides@, n);
        lemma_tool_inserts(mid, m, m.agent_tools@, n);
        assert(with_capability_paths(base, m, m.provides@).contains_key("/api/tools/"@ + n) == base.contains_key(
            "/api/tools/"@ + n,
        ) && with_capability_paths(base, m, m.provides@)["/api/tools/"@ + n] == base["/api/tools/"@ + n]);
        assert(ms[ms.len() - 1] == m);
        if exists|x: int| 0 <= x < p.len() && has_tool(#[trigger] p[x].agent_tools@, n) {
            let x = choose|x: int| 0 <= x < p.len() && has_tool(#[trigger] p[x].agent_tools@, n);
            assert(ms[x] == p[x]);
        }
        if exists|x: int| 0 <= x < ms.len() && has_tool(#[trigger] ms[x].agent_tools@, n) {
            let x = choose|x: int| 0 <= x < ms.len() && has_tool(#[trigger] ms[x].agent_tools@, n);
            if x < ms.len() - 1 {
                assert(p[x] == ms[x]);
            }
        }
        if api_paths(ms).contains_key(key) {
            if has_tool(m.agent_tools@, n) {
                let k = choose|k: int|
                    0 <= k < m.agent_tools@.len() && (#[trigger] m.agent_tools@[k]).name@ == n && api_paths(ms)[key]
                        == tool_operation(m, m.agent_tools@[k]);
                assert(ms[ms.len() - 1].agent_tools@[k] == m.agent_tools@[k]);
            } else {
                assert(documented_tool(p, n, base[key]));
                let (x, y) = choose|x: int, y: int|
                    0 <= x < p.len() && 0 <= y < p[x].agent_tools@.len() && (#[trigger] p[x].agent_tools@[y]).name@ == n
                        && base[key].method == "post"@ && base[key].tag == p[x].id@ && base[key].summary
                        == p[x].agent_tools@[y].description@ && base[key].operation_id == "invoke_"@ + underscored(n)
                        && base[key].request_schema == Some(p[x].agent_tools@[y].parameters_schema)
                        && base[key].response_description == "Tool result"@;
                assert(ms[x] == p[x]);
                assert(ms[x].agent_tools@[y] == p[x].agent_tools@[y]);
            }
        }
    }
}

/// Every capability and tool of every module has its path in the OpenAPI
/// document, and the operation there describes a declaration with that name:
/// its summary is that declaration's description, its tag the declaring
/// module, its method GET for a capability and POST for a tool.
pub proof fn law_document_describes_declarations(ms: Seq<Manifest>)
    ensures
        forall|i: int, k: int|
            0 <= i < ms.len() && 0 <= k < ms[i].provides@.len() ==> {
                let n = (#[trigger] ms[i].provides@[k]).name@;
                &&& api_paths(ms).contains_key("/api/capabilities/"@ + n)
                &&& documented_capability(ms, n, api_paths(ms)["/api/capabilities/"@ + n])
            },
        forall|i: int, k: int|
            0 <= i < ms.len() && 0 <= k < ms[i].agent_tools@.len() ==> {
                let n = (#[trigger] ms[i].agent_tools@[k]).name@;
                &&& api_paths(ms).contains_key("/api/tools/"@ + n)
                &&& documented_tool(ms, n, api_paths(ms)["/api/tools/"@ + n])
            },
{
    assert forall|i: int, k: int| 0 <= i < ms.len() && 0 <= k < ms[i].provides@.len() implies {
        let n = (#[trigger] ms[i].provides@[k]).name@;
        &&& api_paths(ms).contains_key("/api/capabilities/"@ + n)
        &&& documented_capability(ms, n, api_paths(ms)["/api/capabilities/"@ + n])
    } by {
        let n = ms[i].provides@[k].name@;
        lemma_api_capability(ms, n);
        assert(declares(ms[i].provides@, n));
    }
    assert forall|i: int, k: int| 0 <= i < ms.len() && 0 <= k < ms[i].agent_tools@.len() implies {
        let n = (#[trigger] ms[i].agent_tools@[k]).name@;
        &&& api_paths(ms).contains_key("/api/tools/"@ + n)
        &&& documented_tool(ms, n, api_paths(ms)["/api/tools/"@ + n])
    } by {
        let n = ms[i].agent_tools@[k].name@;
        lemma_api_tool(ms, n);
        assert(has_tool(ms[i].agent_tools@, n));
    }
}

} // verus!
