//! Properties of the library as a whole, stated over the specifications
//! that the functions' contracts use.

use vstd::prelude::*;

use crate::cycle::{
    chain_link, cycle_members, cycle_reported, dependency_chain, depends_on, ids_distinct, is_dependency_chain,
    is_module_id, is_on_cycle, lemma_chain_first_step, lemma_filter_facts, lemma_on_cycle_chains, lemma_unique_ids,
    on_cycle, unique_ids,
};
use crate::graph::{
    node_of, dependency_error, edge_of, edges_of_deps, edges_of_modules, errors_of_deps, errors_of_modules, graph_of,
    provider_map, validation_errors, version_map, with_providers, with_versions, DepGraphView, GraphEdgeView,
};
use crate::manifest::{Capability, Dependency, Manifest};
use crate::openapi::{
    api_paths, api_tags, capability_path, tool_path, with_capability_paths, with_tool_paths, OperationView,
};
use crate::manifest::ToolSpec;
use crate::removal::{
    broken_of_deps, broken_of_modules, declares, first_with_id, lemma_no_target_no_breakage, loses_provider,
    other_provider, removal_of, target_provides, BrokenDependentView,
};
use crate::semver_check::semver_compatible;

verus! {

/// A module never depends on itself: a capability that it both provides and
/// requires adds no dependency.
pub proof fn law_no_self_dependency(ms: Seq<Manifest>, a: Seq<char>)
    ensures
        !depends_on(ms, a, a),
{
}

/// A single module is never reported as a cycle, whatever it requires.
pub proof fn law_single_module_has_no_cycle(ms: Seq<Manifest>)
    requires
        ms.len() == 1,
    ensures
        !cycle_reported(ms),
{
    assert forall|i: int| 0 <= i < ms.len() implies !on_cycle(ms, #[trigger] ms[i].id@) by {
        if on_cycle(ms, ms[i].id@) {
            lemma_on_cycle_chains(ms, ms[i].id@, 1);
            let b = lemma_chain_first_step(ms, ms[i].id@, 0);
            let (x, y) = choose|x: int, y: int|
                #![trigger ms[x].requires@[y]]
                0 <= x < ms.len() && 0 <= y < ms[x].requires@.len() && ms[x].id@ == ms[i].id@
                    && crate::cycle::resolves_to(ms, ms[x].requires@[y], ms[i].id@, b);
            let z = choose|z: int| 0 <= z < ms.len() && ms[z].id@ == b;
        }
    }
}

/// Modules that require nothing form no cycle, even when their ids repeat.
pub proof fn law_no_requirements_no_cycle(ms: Seq<Manifest>)
    requires
        forall|i: int| 0 <= i < ms.len() ==> (#[trigger] ms[i]).requires@.len() == 0,
    ensures
        !cycle_reported(ms),
{
    law_ranked_modules_have_no_cycle(ms, |a: Seq<char>| 0nat);
}

/// The modules of a closed chain of dependencies each lie on a cycle.
proof fn lemma_closed_chain_on_cycle(ms: Seq<Manifest>, path: Seq<Seq<char>>, k: int)
    requires
        is_dependency_chain(ms, path),
        path.len() >= 2,
        path[path.len() - 1] == path[0],
        0 <= k < path.len(),
    ensures
        on_cycle(ms, path[k]),
{
    let len = path.len() as int;
    if k == len - 1 {
        assert(path[k] == path[0]);
        assert(on_cycle(ms, path[0]));
    } else {
        let rot = path.subrange(k, len) + path.subrange(1, k + 1);
        assert(rot.len() == len);
        assert(rot[0] == path[k]);
        assert(rot[len - 1] == path[k]) by {
            if k == 0 {
                assert(rot[len - 1] == path[len - 1]);
            } else {
                assert(rot[len - 1] == path.subrange(1, k + 1)[k - 1]);
            }
        }
        assert forall|i: int| 0 <= i < rot.len() - 1 implies #[trigger] chain_link(ms, rot, i) by {
            let split = len - k;
            if i < split - 1 {
                assert(chain_link(ms, path, k + i));
                assert(rot[i] == path[k + i] && rot[i + 1] == path[k + i + 1]);
            } else if i == split - 1 {
                assert(chain_link(ms, path, 0));
                assert(rot[i] == path[len - 1]);
                assert(rot[i + 1] == path[1]);
            } else {
                let j = i - split + 1;
                assert(chain_link(ms, path, j));
                assert(rot[i] == path[j] && rot[i + 1] == path[j + 1]);
            }
        }
        assert(is_dependency_chain(ms, rot));
    }
}

/// Every module on a dependency cycle is reported: when a chain of
/// dependencies leads from a module back to itself, validation reports a
/// cycle whose members include every module of the chain.
pub proof fn law_cycle_members_reported(ms: Seq<Manifest>, path: Seq<Seq<char>>)
    requires
        is_dependency_chain(ms, path),
        path.len() >= 2,
        path[path.len() - 1] == path[0],
    ensures
        cycle_reported(ms),
        forall|k: int| 0 <= k < path.len() ==> cycle_members(ms).contains(#[trigger] path[k]),
{
    let last = path.len() - 1;
    // Every module of the chain is a module of the list.
    assert forall|i: int| 0 <= i < path.len() implies is_module_id(ms, #[trigger] path[i]) by {
        let j = if i < last { i } else { 0 };
        assert(chain_link(ms, path, j));
        let (x, y) = choose|x: int, y: int|
            #![trigger ms[x].requires@[y]]
            0 <= x < ms.len() && 0 <= y < ms[x].requires@.len() && ms[x].id@ == path[j]
                && crate::cycle::resolves_to(ms, ms[x].requires@[y], path[j], path[j + 1]);
    }
    lemma_unique_ids(ms);
    lemma_filter_facts(unique_ids(ms), is_on_cycle(ms));
    assert forall|k: int| 0 <= k < path.len() implies cycle_members(ms).contains(#[trigger] path[k]) by {
        lemma_closed_chain_on_cycle(ms, path, k);
        assert(unique_ids(ms).contains(path[k]));
        assert(is_on_cycle(ms)(path[k]));
    }
    lemma_closed_chain_on_cycle(ms, path, 0);
    let i = choose|i: int| 0 <= i < ms.len() && ms[i].id@ == path[0];
    assert(on_cycle(ms, ms[i].id@));
}

/// Detection has no false positives: when every dependency leads to a
/// module of lower rank, no cycle is reported.
pub proof fn law_ranked_modules_have_no_cycle(ms: Seq<Manifest>, rank: spec_fn(Seq<char>) -> nat)
    requires
        forall|a: Seq<char>, b: Seq<char>| #[trigger] depends_on(ms, a, b) ==> rank(b) < rank(a),
    ensures
        !cycle_reported(ms),
{
    assert forall|i: int| 0 <= i < ms.len() implies !on_cycle(ms, #[trigger] ms[i].id@) by {
        if on_cycle(ms, ms[i].id@) {
            lemma_on_cycle_chains(ms, ms[i].id@, rank(ms[i].id@) + 1);
            lemma_chain_bounded_by_rank(ms, rank, ms[i].id@, rank(ms[i].id@) + 1);
        }
    }
}

proof fn lemma_chain_bounded_by_rank(ms: Seq<Manifest>, rank: spec_fn(Seq<char>) -> nat, a: Seq<char>, k: nat)
    requires
        forall|a: Seq<char>, b: Seq<char>| #[trigger] depends_on(ms, a, b) ==> rank(b) < rank(a),
        k > rank(a),
    ensures
        !dependency_chain(ms, a, k),
    decreases k,
{
    if dependency_chain(ms, a, k) {
        let b = lemma_chain_first_step(ms, a, (k - 1) as nat);
        lemma_chain_bounded_by_rank(ms, rank, b, (k - 1) as nat);
    }
}

/// A dependency is satisfied when, if some module provides its capability,
/// the provided version meets its requirement, and, if it is required, some
/// module provides its capability.
pub open spec fn dependency_satisfied(ms: Seq<Manifest>, d: Dependency) -> bool {
    &&& provider_map(ms).contains_key(d.capability@) ==> semver_compatible(
        version_map(ms)[d.capability@],
        d.version_req@,
    )
    &&& d.required ==> provider_map(ms).contains_key(d.capability@)
}

proof fn lemma_same_names_caps(p: Map<Seq<char>, Seq<char>>, v: Map<Seq<char>, Seq<char>>, caps: Seq<Capability>, id: Seq<char>)
    requires
        p.dom() == v.dom(),
    ensures
        with_providers(p, caps, id).dom() == with_versions(v, caps).dom(),
    decreases caps.len(),
{
    if caps.len() > 0 {
        lemma_same_names_caps(p, v, caps.drop_last(), id);
        assert(with_providers(p, caps, id).dom() =~= with_versions(v, caps).dom());
    }
}

/// A capability has a provider exactly when it has a provided version.
proof fn lemma_same_names(ms: Seq<Manifest>)
    ensures
        provider_map(ms).dom() == version_map(ms).dom(),
    decreases ms.len(),
{
    if ms.len() > 0 {
        lemma_same_names(ms.drop_last());
        lemma_same_names_caps(provider_map(ms.drop_last()), version_map(ms.drop_last()), ms.last().provides@, ms.last().id@);
    }
}

proof fn lemma_deps_errors_empty(ms: Seq<Manifest>, m: Manifest, deps: Seq<Dependency>)
    ensures
        errors_of_deps(ms, m, deps).len() == 0 <==> forall|j: int| 0 <= j < deps.len() ==> #[trigger] dependency_error(ms, m, deps[j]).len() == 0,
    decreases deps.len(),
{
    if deps.len() > 0 {
        lemma_deps_errors_empty(ms, m, deps.drop_last());
        if errors_of_deps(ms, m, deps).len() == 0 {
            assert forall|j: int| 0 <= j < deps.len() implies #[trigger] dependency_error(ms, m, deps[j]).len() == 0 by {
                if j < deps.len() - 1 {
                    assert(deps.drop_last()[j] == deps[j]);
                }
            }
        }
        if forall|j: int| 0 <= j < deps.len() ==> #[trigger] dependency_error(ms, m, deps[j]).len() == 0 {
            assert forall|j: int| 0 <= j < deps.drop_last().len() implies #[trigger] dependency_error(ms, m, deps.drop_last()[j]).len() == 0 by {
                assert(deps.drop_last()[j] == deps[j]);
            }
            assert(dependency_error(ms, m, deps[deps.len() - 1]).len() == 0);
        }
    }
}

proof fn lemma_modules_errors_empty(ms: Seq<Manifest>, upto: Seq<Manifest>)
    ensures
        errors_of_modules(ms, upto).len() == 0 <==> forall|i: int, j: int|
            0 <= i < upto.len() && 0 <= j < upto[i].requires@.len() ==> #[trigger] dependency_error(ms, upto[i], upto[i].requires@[j]).len() == 0,
    decreases upto.len(),
{
    if upto.len() > 0 {
        let p = upto.drop_last();
        let m = upto.last();
        lemma_modules_errors_empty(ms, p);
        lemma_deps_errors_empty(ms, m, m.requires@);
        if errors_of_modules(ms, upto).len() == 0 {
            assert forall|i: int, j: int| 0 <= i < upto.len() && 0 <= j < upto[i].requires@.len() implies #[trigger] dependency_error(ms, upto[i], upto[i].requires@[j]).len() == 0 by {
                if i < upto.len() - 1 {
                    assert(p[i] == upto[i]);
                    assert(dependency_error(ms, p[i], p[i].requires@[j]).len() == 0);
                }
            }
        }
        if forall|i: int, j: int| 0 <= i < upto.len() && 0 <= j < upto[i].requires@.len() ==> #[trigger] dependency_error(ms, upto[i], upto[i].requires@[j]).len() == 0 {
            assert forall|i: int, j: int| 0 <= i < p.len() && 0 <= j < p[i].requires@.len() implies #[trigger] dependency_error(ms, p[i], p[i].requires@[j]).len() == 0 by {
                assert(p[i] == upto[i]);
            }
            assert forall|j: int| 0 <= j < m.requires@.len() implies #[trigger] dependency_error(ms, m, m.requires@[j]).len() == 0 by {
                assert(upto[upto.len() - 1] == m);
            }
        }
    }
}

/// Validation accepts exactly the module sets in which every dependency is
/// satisfied and no cycle is reported: a missing optional dependency is no error.
pub proof fn law_validation_accepts_exactly(ms: Seq<Manifest>)
    ensures
        validation_errors(ms).len() == 0 <==> (!cycle_reported(ms) && forall|i: int, j: int|
            0 <= i < ms.len() && 0 <= j < ms[i].requires@.len() ==> dependency_satisfied(ms, #[trigger] ms[i].requires@[j])),
{
    lemma_same_names(ms);
    lemma_modules_errors_empty(ms, ms);
    assert forall|i: int, j: int| 0 <= i < ms.len() && 0 <= j < ms[i].requires@.len() implies (#[trigger] dependency_error(ms, ms[i], ms[i].requires@[j]).len() == 0
        <==> dependency_satisfied(ms, ms[i].requires@[j])) by {
        let d = ms[i].requires@[j];
        assert(provider_map(ms).contains_key(d.capability@) == version_map(ms).contains_key(d.capability@));
    }
    if validation_errors(ms).len() == 0 {
        assert(errors_of_modules(ms, ms).len() == 0);
        assert forall|i: int, j: int| 0 <= i < ms.len() && 0 <= j < ms[i].requires@.len() implies dependency_satisfied(ms, #[trigger] ms[i].requires@[j]) by {
            assert(dependency_error(ms, ms[i], ms[i].requires@[j]).len() == 0);
        }
    }
    if !cycle_reported(ms) && forall|i: int, j: int| 0 <= i < ms.len() && 0 <= j < ms[i].requires@.len() ==> dependency_satisfied(ms, #[trigger] ms[i].requires@[j]) {
        assert forall|i: int, j: int| 0 <= i < ms.len() && 0 <= j < ms[i].requires@.len() implies #[trigger] dependency_error(ms, ms[i], ms[i].requires@[j]).len() == 0 by {
            assert(dependency_satisfied(ms, ms[i].requires@[j]));
        }
    }
}

proof fn lemma_edge_in_deps(ms: Seq<Manifest>, m: Manifest, deps: Seq<Dependency>, j: int)
    requires
        0 <= j < deps.len(),
        provider_map(ms).contains_key(deps[j].capability@),
    ensures
        edges_of_deps(ms, m, deps).contains(
            GraphEdgeView { from: m.id@, to: provider_map(ms)[deps[j].capability@], capability: deps[j].capability@ },
        ),
    decreases deps.len(),
{
    let e = GraphEdgeView { from: m.id@, to: provider_map(ms)[deps[j].capability@], capability: deps[j].capability@ };
    let front = edges_of_deps(ms, m, deps.drop_last());
    let back = edge_of(ms, m, deps.last());
    if j < deps.len() - 1 {
        assert(deps.drop_last()[j] == deps[j]);
        lemma_edge_in_deps(ms, m, deps.drop_last(), j);
        let k = choose|k: int| 0 <= k < front.len() && front[k] == e;
        assert((front + back)[k] == e);
    } else {
        assert((front + back)[front.len() as int] == e);
    }
}

proof fn lemma_edge_in_modules(ms: Seq<Manifest>, upto: Seq<Manifest>, i: int, j: int)
    requires
        0 <= i < upto.len(),
        0 <= j < upto[i].requires@.len(),
        provider_map(ms).contains_key(upto[i].requires@[j].capability@),
    ensures
        edges_of_modules(ms, upto).contains(
            GraphEdgeView {
                from: upto[i].id@,
                to: provider_map(ms)[upto[i].requires@[j].capability@],
                capability: upto[i].requires@[j].capability@,
            },
        ),
    decreases upto.len(),
{
    let d = upto[i].requires@[j];
    let e = GraphEdgeView { from: upto[i].id@, to: provider_map(ms)[d.capability@], capability: d.capability@ };
    let front = edges_of_modules(ms, upto.drop_last());
    let back = edges_of_deps(ms, upto.last(), upto.last().requires@);
    if i < upto.len() - 1 {
        assert(upto.drop_last()[i] == upto[i]);
        lemma_edge_in_modules(ms, upto.drop_last(), i, j);
        let k = choose|k: int| 0 <= k < front.len() && front[k] == e;
        assert((front + back)[k] == e);
    } else {
        lemma_edge_in_deps(ms, upto.last(), upto.last().requires@, j);
        let k = choose|k: int| 0 <= k < back.len() && back[k] == e;
        assert((front + back)[front.len() + k] == e);
    }
}

/// Every dependency whose capability some module provides shows in the graph
/// as an edge from the module to that capability's provider.
pub proof fn law_resolved_dependency_has_edge(ms: Seq<Manifest>, i: int, j: int)
    requires
        0 <= i < ms.len(),
        0 <= j < ms[i].requires@.len(),
        provider_map(ms).contains_key(ms[i].requires@[j].capability@),
    ensures
        graph_of(ms).edges.contains(
            GraphEdgeView {
                from: ms[i].id@,
                to: provider_map(ms)[ms[i].requires@[j].capability@],
                capability: ms[i].requires@[j].capability@,
            },
        ),
{
    lemma_edge_in_modules(ms, ms, i, j);
}

/// When validation succeeds, every required dependency shows in the graph as
/// an edge to the module that provides it.
pub proof fn law_valid_graph_has_required_edges(ms: Seq<Manifest>, i: int, j: int)
    requires
        validation_errors(ms).len() == 0,
        0 <= i < ms.len(),
        0 <= j < ms[i].requires@.len(),
        ms[i].requires@[j].required,
    ensures
        provider_map(ms).contains_key(ms[i].requires@[j].capability@),
        graph_of(ms).edges.contains(
            GraphEdgeView {
                from: ms[i].id@,
                to: provider_map(ms)[ms[i].requires@[j].capability@],
                capability: ms[i].requires@[j].capability@,
            },
        ),
{
    law_validation_accepts_exactly(ms);
    assert(dependency_satisfied(ms, ms[i].requires@[j]));
    law_resolved_dependency_has_edge(ms, i, j);
}


pub(crate) proof fn lemma_first_with_id(ms: Seq<Manifest>, t: Seq<char>)
    ensures
        match first_with_id(ms, t) {
            Some(x) => 0 <= x < ms.len() && ms[x].id@ == t && forall|y: int| 0 <= y < x ==> ms[y].id@ != t,
            None => !is_module_id(ms, t),
        },
    decreases ms.len(),
{
    if ms.len() > 0 {
        let p = ms.drop_last();
        lemma_first_with_id(p, t);
        match first_with_id(p, t) {
            Some(x) => {
                assert(p[x] == ms[x]);
                assert forall|y: int| 0 <= y < x implies ms[y].id@ != t by {
                    assert(p[y] == ms[y]);
                }
            },
            None => {
                assert forall|y: int| 0 <= y < ms.len() - 1 implies ms[y].id@ != t by {
                    assert(p[y] == ms[y]);
                }
                if is_module_id(ms, t) {
                    let y = choose|y: int| 0 <= y < ms.len() && ms[y].id@ == t;
                }
            },
        }
    }
}

proof fn lemma_broken_in_deps(ms: Seq<Manifest>, t: Seq<char>, m: Manifest, deps: Seq<Dependency>, j: int)
    requires
        0 <= j < deps.len(),
        loses_provider(ms, t, deps[j]),
    ensures
        broken_of_deps(ms, t, m, deps).contains(
            BrokenDependentView { module_id: m.id@, capability: deps[j].capability@, required: deps[j].required },
        ),
    decreases deps.len(),
{
    let b = BrokenDependentView { module_id: m.id@, capability: deps[j].capability@, required: deps[j].required };
    let front = broken_of_deps(ms, t, m, deps.drop_last());
    if j < deps.len() - 1 {
        assert(deps.drop_last()[j] == deps[j]);
        lemma_broken_in_deps(ms, t, m, deps.drop_last(), j);
        let k = choose|k: int| 0 <= k < front.len() && front[k] == b;
        assert(broken_of_deps(ms, t, m, deps)[k] == b);
    } else {
        assert(broken_of_deps(ms, t, m, deps)[front.len() as int] == b);
    }
}

proof fn lemma_broken_in_modules(ms: Seq<Manifest>, t: Seq<char>, upto: Seq<Manifest>, i: int, j: int)
    requires
        0 <= i < upto.len(),
        0 <= j < upto[i].requires@.len(),
        upto[i].id@ != t,
        loses_provider(ms, t, upto[i].requires@[j]),
    ensures
        broken_of_modules(ms, t, upto).contains(
            BrokenDependentView {
                module_id: upto[i].id@,
                capability: upto[i].requires@[j].capability@,
                required: upto[i].requires@[j].required,
            },
        ),
    decreases upto.len(),
{
    let d = upto[i].requires@[j];
    let b = BrokenDependentView { module_id: upto[i].id@, capability: d.capability@, required: d.required };
    let front = broken_of_modules(ms, t, upto.drop_last());
    let all = broken_of_modules(ms, t, upto);
    if i < upto.len() - 1 {
        assert(upto.drop_last()[i] == upto[i]);
        lemma_broken_in_modules(ms, t, upto.drop_last(), i, j);
        let k = choose|k: int| 0 <= k < front.len() && front[k] == b;
        assert(all[k] == b);
    } else {
        lemma_broken_in_deps(ms, t, upto.last(), upto.last().requires@, j);
        let back = broken_of_deps(ms, t, upto.last(), upto.last().requires@);
        let k = choose|k: int| 0 <= k < back.len() && back[k] == b;
        assert(all == front + back);
        assert(all[front.len() + k] == b);
    }
}

/// Removing a module that no manifest declares is safe and breaks nothing.
pub proof fn law_absent_module_removal_is_safe(ms: Seq<Manifest>, t: Seq<char>)
    requires
        !is_module_id(ms, t),
    ensures
        removal_of(ms, t).safe,
        removal_of(ms, t).would_break.len() == 0,
{
    lemma_first_with_id(ms, t);
    lemma_no_target_no_breakage(ms, t, ms);
}

/// Removing the sole provider of a capability that another module requires
/// is blocked.
pub proof fn law_sole_provider_removal_blocked(ms: Seq<Manifest>, t: Seq<char>, i: int, j: int)
    requires
        0 <= i < ms.len(),
        0 <= j < ms[i].requires@.len(),
        ms[i].id@ != t,
        ms[i].requires@[j].required,
        target_provides(ms, t, ms[i].requires@[j].capability@),
        !other_provider(ms, t, ms[i].requires@[j].capability@),
    ensures
        !removal_of(ms, t).safe,
{
    lemma_broken_in_modules(ms, t, ms, i, j);
    let broken = broken_of_modules(ms, t, ms);
    let b = BrokenDependentView { module_id: ms[i].id@, capability: ms[i].requires@[j].capability@, required: true };
    let k = choose|k: int| 0 <= k < broken.len() && broken[k] == b;
    assert(broken[k].required);
}

/// A removal judged safe leaves every required dependency of the other
/// modules with a provider, when module ids are distinct: whatever the
/// removed module provided to them, another module provides as well.
pub proof fn law_safe_removal_keeps_required_providers(ms: Seq<Manifest>, t: Seq<char>, i: int, j: int, p: int)
    requires
        ids_distinct(ms),
        removal_of(ms, t).safe,
        0 <= i < ms.len(),
        0 <= j < ms[i].requires@.len(),
        ms[i].id@ != t,
        ms[i].requires@[j].required,
        0 <= p < ms.len(),
        declares(ms[p].provides@, ms[i].requires@[j].capability@),
    ensures
        other_provider(ms, t, ms[i].requires@[j].capability@),
{
    let c = ms[i].requires@[j].capability@;
    if !other_provider(ms, t, c) {
        assert(ms[p].id@ == t);
        lemma_first_with_id(ms, t);
        assert(is_module_id(ms, t));
        let x = first_with_id(ms, t)->0;
        assert(x == p);
        assert(target_provides(ms, t, c));
        law_sole_provider_removal_blocked(ms, t, i, j);
    }
}


proof fn lemma_capability_paths(p: Map<Seq<char>, OperationView>, m: Manifest, caps: Seq<Capability>)
    ensures
        forall|key: Seq<char>| p.contains_key(key) ==> with_capability_paths(p, m, caps).contains_key(key),
        forall|k: int| 0 <= k < caps.len() ==> with_capability_paths(p, m, caps).contains_key(#[trigger] capability_path(caps[k])),
    decreases caps.len(),
{
    if caps.len() > 0 {
        lemma_capability_paths(p, m, caps.drop_last());
        assert forall|k: int| 0 <= k < caps.len() implies with_capability_paths(p, m, caps).contains_key(#[trigger] capability_path(caps[k])) by {
            if k < caps.len() - 1 {
                assert(caps.drop_last()[k] == caps[k]);
            }
        }
    }
}

proof fn lemma_tool_paths(p: Map<Seq<char>, OperationView>, m: Manifest, tools: Seq<ToolSpec>)
    ensures
        forall|key: Seq<char>| p.contains_key(key) ==> with_tool_paths(p, m, tools).contains_key(key),
        forall|k: int| 0 <= k < tools.len() ==> with_tool_paths(p, m, tools).contains_key(#[trigger] tool_path(tools[k])),
    decreases tools.len(),
{
    if tools.len() > 0 {
        lemma_tool_paths(p, m, tools.drop_last());
        assert forall|k: int| 0 <= k < tools.len() implies with_tool_paths(p, m, tools).contains_key(#[trigger] tool_path(tools[k])) by {
            if k < tools.len() - 1 {
                assert(tools.drop_last()[k] == tools[k]);
            }
        }
    }
}

/// Every capability and every agent tool of every module has a path in the
/// OpenAPI document, and every module has a tag.
pub proof fn law_every_offer_documented(ms: Seq<Manifest>)
    ensures
        forall|i: int, k: int|
            0 <= i < ms.len() && 0 <= k < ms[i].provides@.len() ==> api_paths(ms).contains_key(
                #[trigger] capability_path(ms[i].provides@[k]),
            ),
        forall|i: int, k: int|
            0 <= i < ms.len() && 0 <= k < ms[i].agent_tools@.len() ==> api_paths(ms).contains_key(
                #[trigger] tool_path(ms[i].agent_tools@[k]),
            ),
        api_tags(ms).len() == ms.len(),
    decreases ms.len(),
{
    if ms.len() > 0 {
        let p = ms.drop_last();
        let m = ms.last();
        law_every_offer_documented(p);
        let mid = with_capability_paths(api_paths(p), m, m.provides@);
        lemma_capability_paths(api_paths(p), m, m.provides@);
        lemma_tool_paths(mid, m, m.agent_tools@);
        assert forall|i: int, k: int| 0 <= i < ms.len() && 0 <= k < ms[i].provides@.len() implies api_paths(ms).contains_key(
            #[trigger] capability_path(ms[i].provides@[k]),
        ) by {
            if i < ms.len() - 1 {
                assert(p[i] == ms[i]);
                assert(api_paths(p).contains_key(capability_path(p[i].provides@[k])));
            }
        }
        assert forall|i: int, k: int| 0 <= i < ms.len() && 0 <= k < ms[i].agent_tools@.len() implies api_paths(ms).contains_key(
            #[trigger] tool_path(ms[i].agent_tools@[k]),
        ) by {
            if i < ms.len() - 1 {
                assert(p[i] == ms[i]);
                assert(api_paths(p).contains_key(tool_path(p[i].agent_tools@[k])));
            }
        }
    }
}


pub(crate) proof fn lemma_with_providers(
    m0: Map<Seq<char>, Seq<char>>,
    caps: Seq<Capability>,
    id: Seq<char>,
    c: Seq<char>,
)
    ensures
        with_providers(m0, caps, id).contains_key(c) <==> (m0.contains_key(c) || declares(caps, c)),
        declares(caps, c) ==> with_providers(m0, caps, id)[c] == id,
        !declares(caps, c) ==> with_providers(m0, caps, id)[c] == m0[c],
    decreases caps.len(),
{
    if caps.len() > 0 {
        let p = caps.drop_last();
        lemma_with_providers(m0, p, id, c);
        assert(declares(caps, c) <==> (declares(p, c) || caps.last().name@ == c)) by {
            if declares(caps, c) {
                let k = choose|k: int| 0 <= k < caps.len() && caps[k].name@ == c;
                if k < caps.len() - 1 {
                    assert(p[k] == caps[k]);
                }
            }
            if declares(p, c) {
                let k = choose|k: int| 0 <= k < p.len() && p[k].name@ == c;
                assert(caps[k] == p[k]);
            }
        }
    }
}

/// A capability has a provider exactly when some module declares it, and
/// the provider is a module that declares it.
pub(crate) proof fn lemma_provider_map(ms: Seq<Manifest>, c: Seq<char>)
    ensures
        provider_map(ms).contains_key(c) <==> exists|i: int| 0 <= i < ms.len() && declares(#[trigger] ms[i].provides@, c),
        provider_map(ms).contains_key(c) ==> exists|i: int|
            0 <= i < ms.len() && declares(#[trigger] ms[i].provides@, c) && ms[i].id@ == provider_map(ms)[c],
    decreases ms.len(),
{
    if ms.len() > 0 {
        let p = ms.drop_last();
        let m = ms.last();
        lemma_provider_map(p, c);
        lemma_with_providers(provider_map(p), m.provides@, m.id@, c);
        assert(ms[ms.len() - 1] == m);
        if exists|i: int| 0 <= i < p.len() && declares(#[trigger] p[i].provides@, c) {
            let i = choose|i: int| 0 <= i < p.len() && declares(#[trigger] p[i].provides@, c);
            assert(ms[i] == p[i]);
        }
        if exists|i: int| 0 <= i < ms.len() && declares(#[trigger] ms[i].provides@, c) {
            let i = choose|i: int| 0 <= i < ms.len() && declares(#[trigger] ms[i].provides@, c);
            if i < ms.len() - 1 {
                assert(p[i] == ms[i]);
            }
        }
        if provider_map(ms).contains_key(c) && !declares(m.provides@, c) {
            let i = choose|i: int| 0 <= i < p.len() && declares(#[trigger] p[i].provides@, c) && p[i].id@ == provider_map(p)[c];
            assert(ms[i] == p[i]);
        }
    }
}

proof fn lemma_edge_from_deps(ms: Seq<Manifest>, m: Manifest, deps: Seq<Dependency>, e: GraphEdgeView)
    requires
        edges_of_deps(ms, m, deps).contains(e),
    ensures
        exists|j: int|
            0 <= j < deps.len() && e.from == m.id@ && (#[trigger] deps[j]).capability@ == e.capability
                && provider_map(ms).contains_key(e.capability) && e.to == provider_map(ms)[e.capability],
    decreases deps.len(),
{
    let front = edges_of_deps(ms, m, deps.drop_last());
    let back = edge_of(ms, m, deps.last());
    let k = choose|k: int| 0 <= k < (front + back).len() && (front + back)[k] == e;
    if k < front.len() {
        assert(front[k] == e);
        lemma_edge_from_deps(ms, m, deps.drop_last(), e);
        let j = choose|j: int|
            0 <= j < deps.drop_last().len() && e.from == m.id@ && (#[trigger] deps.drop_last()[j]).capability@ == e.capability
                && provider_map(ms).contains_key(e.capability) && e.to == provider_map(ms)[e.capability];
        assert(deps[j] == deps.drop_last()[j]);
    } else {
        assert(deps[deps.len() - 1] == deps.last());
    }
}

proof fn lemma_edge_from_modules(ms: Seq<Manifest>, upto: Seq<Manifest>, e: GraphEdgeView)
    requires
        edges_of_modules(ms, upto).contains(e),
    ensures
        exists|i: int, j: int|
            0 <= i < upto.len() && 0 <= j < upto[i].requires@.len() && e.from == upto[i].id@
                && (#[trigger] upto[i].requires@[j]).capability@ == e.capability && provider_map(ms).contains_key(e.capability)
                && e.to == provider_map(ms)[e.capability],
    decreases upto.len(),
{
    let front = edges_of_modules(ms, upto.drop_last());
    let back = edges_of_deps(ms, upto.last(), upto.last().requires@);
    let k = choose|k: int| 0 <= k < (front + back).len() && (front + back)[k] == e;
    if k < front.len() {
        assert(front[k] == e);
        lemma_edge_from_modules(ms, upto.drop_last(), e);
        let (i, j) = choose|i: int, j: int|
            0 <= i < upto.drop_last().len() && 0 <= j < upto.drop_last()[i].requires@.len() && e.from == upto.drop_last()[i].id@
                && (#[trigger] upto.drop_last()[i].requires@[j]).capability@ == e.capability && provider_map(ms).contains_key(e.capability)
                && e.to == provider_map(ms)[e.capability];
        assert(upto[i] == upto.drop_last()[i]);
    } else {
        assert(back[k - front.len()] == e);
        lemma_edge_from_deps(ms, upto.last(), upto.last().requires@, e);
        assert(upto[upto.len() - 1] == upto.last());
        let j = choose|j: int|
            0 <= j < upto.last().requires@.len() && e.from == upto.last().id@ && (#[trigger] upto.last().requires@[j]).capability@ == e.capability
                && provider_map(ms).contains_key(e.capability) && e.to == provider_map(ms)[e.capability];
        assert(upto[upto.len() - 1].requires@[j] == upto.last().requires@[j]);
    }
}

/// Edge `e` leaves a node of `g` that requires `e`'s capability and enters a
/// node of `g` that provides it.
pub open spec fn joins_requirer_and_provider(g: DepGraphView, e: GraphEdgeView) -> bool {
    &&& exists|a: int, j: int|
        0 <= a < g.nodes.len() && 0 <= j < g.nodes[a].requires.len() && g.nodes[a].id == e.from
            && (#[trigger] g.nodes[a].requires[j]).capability@ == e.capability
    &&& exists|b: int, c: int|
        0 <= b < g.nodes.len() && 0 <= c < g.nodes[b].provides.len() && g.nodes[b].id == e.to
            && (#[trigger] g.nodes[b].provides[c]).name@ == e.capability
}

/// Every edge of the graph joins a node that requires the edge's capability
/// to a node that provides it.
pub proof fn law_edges_join_requirer_and_provider(ms: Seq<Manifest>)
    ensures
        forall|k: int|
            0 <= k < graph_of(ms).edges.len() ==> joins_requirer_and_provider(graph_of(ms), #[trigger] graph_of(ms).edges[k]),
{
    let g = graph_of(ms);
    assert forall|k: int| 0 <= k < graph_of(ms).edges.len() implies joins_requirer_and_provider(
        graph_of(ms),
        #[trigger] graph_of(ms).edges[k],
    ) by {
        let e = g.edges[k];
        assert(g.edges.contains(e));
        lemma_edge_from_modules(ms, ms, e);
        let (i, j) = choose|i: int, j: int|
            0 <= i < ms.len() && 0 <= j < ms[i].requires@.len() && e.from == ms[i].id@
                && (#[trigger] ms[i].requires@[j]).capability@ == e.capability && provider_map(ms).contains_key(e.capability)
                && e.to == provider_map(ms)[e.capability];
        assert(g.nodes[i] == node_of(ms[i]));
        assert(g.nodes[i].requires[j] == ms[i].requires@[j]);
        lemma_provider_map(ms, e.capability);
        let b = choose|b: int|
            0 <= b < ms.len() && declares(#[trigger] ms[b].provides@, e.capability) && ms[b].id@ == provider_map(ms)[e.capability];
        let c = choose|c: int| 0 <= c < ms[b].provides@.len() && ms[b].provides@[c].name@ == e.capability;
        assert(g.nodes[b] == node_of(ms[b]));
        assert(g.nodes[b].provides[c] == ms[b].provides@[c]);
    }
}

} // verus!
