//! Validation does not depend on the order in which the manifests are listed.

use vstd::prelude::*;

use crate::cycle::{
    chain_link, cycle_members, cycle_reported, depends_on, is_dependency_chain, is_module_id, is_on_cycle,
    lemma_filter_facts, lemma_unique_ids, on_cycle, resolves_to, unique_ids,
};
use crate::graph::{
    dependency_error, errors_of_deps, errors_of_modules, provider_map, validation_errors, version_map, with_versions,
    GraphErrorView,
};
use crate::laws::lemma_provider_map;
use crate::manifest::{Capability, Dependency, Manifest};
use crate::removal::declares;

verus! {

/// `perm` reorders `ms` into `ms2`: position `i` of `ms2` holds the module at
/// position `perm[i]` of `ms`, and every position of `ms` is used once.
pub open spec fn reorders(ms: Seq<Manifest>, ms2: Seq<Manifest>, perm: Seq<int>) -> bool {
    &&& ms2.len() == ms.len()
    &&& perm.len() == ms.len()
    &&& forall|i: int| 0 <= i < ms.len() ==> 0 <= #[trigger] perm[i] < ms.len() && ms2[i] == ms[perm[i]]
    &&& forall|i: int, j: int| 0 <= i < j < ms.len() ==> perm[i] != perm[j]
    &&& forall|k: int| 0 <= k < ms.len() ==> #[trigger] position_used(perm, k)
}

/// Some entry of `perm` is `k`.
pub open spec fn position_used(perm: Seq<int>, k: int) -> bool {
    exists|i: int| 0 <= i < perm.len() && perm[i] == k
}

/// No two capability declarations, in any modules, share a name.
pub open spec fn capability_names_distinct(ms: Seq<Manifest>) -> bool {
    forall|i: int, k: int, i2: int, k2: int|
        0 <= i < ms.len() && 0 <= k < ms[i].provides@.len() && 0 <= i2 < ms.len() && 0 <= k2 < ms[i2].provides@.len()
            && (#[trigger] ms[i].provides@[k]).name@ == (#[trigger] ms[i2].provides@[k2]).name@ ==> i == i2 && k == k2
}

proof fn lemma_with_versions(m0: Map<Seq<char>, Seq<char>>, caps: Seq<Capability>, c: Seq<char>)
    ensures
        with_versions(m0, caps).contains_key(c) <==> (m0.contains_key(c) || declares(caps, c)),
        declares(caps, c) ==> exists|k: int|
            0 <= k < caps.len() && (#[trigger] caps[k]).name@ == c && with_versions(m0, caps)[c] == caps[k].version@,
        !declares(caps, c) ==> with_versions(m0, caps)[c] == m0[c],
    decreases caps.len(),
{
    if caps.len() > 0 {
        let p = caps.drop_last();
        lemma_with_versions(m0, p, c);
        assert(declares(caps, c) <==> (declares(p, c) || caps.last().name@ == c)) by {
            if declares(caps, c) {
                let k = choose|k: int| 0 <= k < caps.len() && caps[k].name@ == c;
                if k < caps.len() - 1 {
                    assert(p[k] == caps[k]);
                }
            }
            if declares(p, c) {
                let k = choose|k: int| 0 <= k < p.len() && p[k].name@ == c;
                assert(caps[k] == p[k]);
            }
        }
        if caps.last().name@ == c {
            assert(caps[caps.len() - 1].name@ == c);
        } else if declares(p, c) {
            let k = choose|k: int| 0 <= k < p.len() && (#[trigger] p[k]).name@ == c && with_versions(m0, p)[c] == p[k].version@;
            assert(caps[k] == p[k]);
        }
    }
}

/// A capability has a version exactly when some module declares it, and the
/// version is that of some declaration of it.
proof fn lemma_version_map(ms: Seq<Manifest>, c: Seq<char>)
    ensures
        version_map(ms).contains_key(c) <==> exists|i: int| 0 <= i < ms.len() && declares(#[trigger] ms[i].provides@, c),
        version_map(ms).contains_key(c) ==> exists|i: int, k: int|
            0 <= i < ms.len() && 0 <= k < ms[i].provides@.len() && (#[trigger] ms[i].provides@[k]).name@ == c
                && version_map(ms)[c] == ms[i].provides@[k].version@,
    decreases ms.len(),
{
    if ms.len() > 0 {
        let p = ms.drop_last();
        let m = ms.last();
        lemma_version_map(p, c);
        lemma_with_versions(version_map(p), m.provides@, c);
        assert(ms[ms.len() - 1] == m);
        if exists|i: int| 0 <= i < p.len() && declares(#[trigger] p[i].provides@, c) {
            let i = choose|i: int| 0 <= i < p.len() && declares(#[trigger] p[i].provides@, c);
            assert(ms[i] == p[i]);
        }
        if exists|i: int| 0 <= i < ms.len() && declares(#[trigger] ms[i].provides@, c) {
            let i = choose|i: int| 0 <= i < ms.len() && declares(#[trigger] ms[i].provides@, c);
            if i < ms.len() - 1 {
                assert(p[i] == ms[i]);
            }
        }
        if version_map(ms).contains_key(c) {
            if declares(m.provides@, c) {
                let k = choose|k: int| 0 <= k < m.provides@.len() && (#[trigger] m.provides@[k]).name@ == c && version_map(ms)[c] == m.provides@[k].version@;
                assert(ms[ms.len() - 1].provides@[k] == m.provides@[k]);
            } else {
                let (i, k) = choose|i: int, k: int|
                    0 <= i < p.len() && 0 <= k < p[i].provides@.len() && (#[trigger] p[i].provides@[k]).name@ == c
                        && version_map(p)[c] == p[i].provides@[k].version@;
                assert(ms[i] == p[i]);
                assert(ms[i].provides@[k].name@ == c);
            }
        }
    }
}

/// Some module of `ms` declares capability `c`.
spec fn somebody_declares(ms: Seq<Manifest>, c: Seq<char>) -> bool {
    exists|i: int| 0 <= i < ms.len() && declares(#[trigger] ms[i].provides@, c)
}

/// The module `m` stands somewhere in `ms`.
spec fn appears_in(ms: Seq<Manifest>, m: Manifest) -> bool {
    exists|i: int| 0 <= i < ms.len() && ms[i] == m
}

proof fn lemma_reorder_basics(ms: Seq<Manifest>, ms2: Seq<Manifest>, perm: Seq<int>)
    requires
        reorders(ms, ms2, perm),
    ensures
        forall|i: int| 0 <= i < ms.len() ==> #[trigger] appears_in(ms2, ms[i]),
        forall|a: Seq<char>| is_module_id(ms2, a) <==> is_module_id(ms, a),
        forall|c: Seq<char>| #[trigger] somebody_declares(ms2, c) == somebody_declares(ms, c),
{
    assert forall|i: int| 0 <= i < ms.len() implies #[trigger] appears_in(ms2, ms[i]) by {
        assert(position_used(perm, i));
        let i2 = choose|i2: int| 0 <= i2 < perm.len() && perm[i2] == i;
        assert(ms2[i2] == ms[perm[i2]]);
    }
    assert forall|a: Seq<char>| is_module_id(ms2, a) <==> is_module_id(ms, a) by {
        if is_module_id(ms2, a) {
            let i = choose|i: int| 0 <= i < ms2.len() && ms2[i].id@ == a;
            assert(ms2[i] == ms[perm[i]]);
        }
        if is_module_id(ms, a) {
            let i = choose|i: int| 0 <= i < ms.len() && ms[i].id@ == a;
            assert(appears_in(ms2, ms[i]));
            let i2 = choose|i2: int| 0 <= i2 < ms2.len() && ms2[i2] == ms[i];
        }
    }
    assert forall|c: Seq<char>| #[trigger] somebody_declares(ms2, c) == somebody_declares(ms, c) by {
        if exists|i: int| 0 <= i < ms2.len() && declares(#[trigger] ms2[i].provides@, c) {
            let i = choose|i: int| 0 <= i < ms2.len() && declares(#[trigger] ms2[i].provides@, c);
            assert(ms2[i] == ms[perm[i]]);
        }
        if exists|i: int| 0 <= i < ms.len() && declares(#[trigger] ms[i].provides@, c) {
            let i = choose|i: int| 0 <= i < ms.len() && declares(#[trigger] ms[i].provides@, c);
            assert(appears_in(ms2, ms[i]));
            let i2 = choose|i2: int| 0 <= i2 < ms2.len() && ms2[i2] == ms[i];
            assert(declares(ms2[i2].provides@, c));
        }
    }
}

/// With distinct capability names, reordering changes neither the providers
/// nor the provided versions.
proof fn lemma_reorder_maps(ms: Seq<Manifest>, ms2: Seq<Manifest>, perm: Seq<int>)
    requires
        reorders(ms, ms2, perm),
        capability_names_distinct(ms),
    ensures
        provider_map(ms2) == provider_map(ms),
        version_map(ms2) == version_map(ms),
{
    lemma_reorder_basics(ms, ms2, perm);
    assert forall|c: Seq<char>| #[trigger] provider_map(ms2).contains_key(c) == provider_map(ms).contains_key(c) by {
        assert(somebody_declares(ms2, c) == somebody_declares(ms, c));
        lemma_provider_map(ms, c);
        lemma_provider_map(ms2, c);
    }
    assert forall|c: Seq<char>| provider_map(ms2).contains_key(c) implies #[trigger] provider_map(ms2)[c] == provider_map(ms)[c] by {
        lemma_provider_map(ms, c);
        lemma_provider_map(ms2, c);
        let i2 = choose|i: int| 0 <= i < ms2.len() && declares(#[trigger] ms2[i].provides@, c) && ms2[i].id@ == provider_map(ms2)[c];
        let i = choose|i: int| 0 <= i < ms.len() && declares(#[trigger] ms[i].provides@, c) && ms[i].id@ == provider_map(ms)[c];
        let j = perm[i2];
        assert(ms2[i2] == ms[j]);
        let k2 = choose|k: int| 0 <= k < ms2[i2].provides@.len() && ms2[i2].provides@[k].name@ == c;
        let k = choose|k: int| 0 <= k < ms[i].provides@.len() && ms[i].provides@[k].name@ == c;
        assert(ms[j].provides@[k2].name@ == ms[i].provides@[k].name@);
    }
    assert(provider_map(ms2) =~= provider_map(ms));
    assert forall|c: Seq<char>| #[trigger] version_map(ms2).contains_key(c) == version_map(ms).contains_key(c) by {
        assert(somebody_declares(ms2, c) == somebody_declares(ms, c));
        lemma_version_map(ms, c);
        lemma_version_map(ms2, c);
    }
    assert forall|c: Seq<char>| version_map(ms2).contains_key(c) implies #[trigger] version_map(ms2)[c] == version_map(ms)[c] by {
        lemma_version_map(ms, c);
        lemma_version_map(ms2, c);
        let (i2, k2) = choose|i: int, k: int|
            0 <= i < ms2.len() && 0 <= k < ms2[i].provides@.len() && (#[trigger] ms2[i].provides@[k]).name@ == c
                && version_map(ms2)[c] == ms2[i].provides@[k].version@;
        let (i, k) = choose|i: int, k: int|
            0 <= i < ms.len() && 0 <= k < ms[i].provides@.len() && (#[trigger] ms[i].provides@[k]).name@ == c
                && version_map(ms)[c] == ms[i].provides@[k].version@;
        let j = perm[i2];
        assert(ms2[i2] == ms[j]);
        assert(ms[j].provides@[k2].name@ == ms[i].provides@[k].name@);
    }
    assert(version_map(ms2) =~= version_map(ms));
}

/// Reordering keeps who depends on whom.
proof fn lemma_reorder_depends(ms: Seq<Manifest>, ms2: Seq<Manifest>, perm: Seq<int>)
    requires
        reorders(ms, ms2, perm),
        provider_map(ms2) == provider_map(ms),
    ensures
        forall|a: Seq<char>, b: Seq<char>| #[trigger] depends_on(ms2, a, b) == depends_on(ms, a, b),
{
    lemma_reorder_basics(ms, ms2, perm);
    assert forall|a: Seq<char>, b: Seq<char>| #[trigger] depends_on(ms2, a, b) == depends_on(ms, a, b) by {
        if depends_on(ms2, a, b) {
            let (i, j) = choose|i: int, j: int|
                #![trigger ms2[i].requires@[j]]
                0 <= i < ms2.len() && 0 <= j < ms2[i].requires@.len() && ms2[i].id@ == a && resolves_to(ms2, ms2[i].requires@[j], a, b);
            let p = perm[i];
            assert(ms2[i] == ms[p]);
            assert(resolves_to(ms, ms[p].requires@[j], a, b));
        }
        if depends_on(ms, a, b) {
            let (i, j) = choose|i: int, j: int|
                #![trigger ms[i].requires@[j]]
                0 <= i < ms.len() && 0 <= j < ms[i].requires@.len() && ms[i].id@ == a && resolves_to(ms, ms[i].requires@[j], a, b);
            assert(appears_in(ms2, ms[i]));
            let i2 = choose|i2: int| 0 <= i2 < ms2.len() && ms2[i2] == ms[i];
            assert(resolves_to(ms2, ms2[i2].requires@[j], a, b));
        }
    }
}

/// Two lists with the same dependency relation have the same cycles.
proof fn lemma_same_cycles(ms: Seq<Manifest>, ms2: Seq<Manifest>, a: Seq<char>)
    requires
        forall|x: Seq<char>, y: Seq<char>| #[trigger] depends_on(ms2, x, y) == depends_on(ms, x, y),
    ensures
        on_cycle(ms2, a) == on_cycle(ms, a),
{
    assert forall|path: Seq<Seq<char>>| #[trigger] is_dependency_chain(ms2, path) == is_dependency_chain(ms, path) by {
        if is_dependency_chain(ms, path) {
            assert forall|i: int| 0 <= i < path.len() - 1 implies #[trigger] chain_link(ms2, path, i) by {
                assert(chain_link(ms, path, i));
                assert(depends_on(ms2, path[i], path[i + 1]) == depends_on(ms, path[i], path[i + 1]));
            }
        }
        if is_dependency_chain(ms2, path) {
            assert forall|i: int| 0 <= i < path.len() - 1 implies #[trigger] chain_link(ms, path, i) by {
                assert(chain_link(ms2, path, i));
                assert(depends_on(ms2, path[i], path[i + 1]) == depends_on(ms, path[i], path[i + 1]));
            }
        }
    }
    if on_cycle(ms, a) {
        let path = choose|path: Seq<Seq<char>>|
            #[trigger] is_dependency_chain(ms, path) && path.len() >= 2 && path[0] == a && path[path.len() - 1] == a;
        assert(is_dependency_chain(ms2, path));
    }
    if on_cycle(ms2, a) {
        let path = choose|path: Seq<Seq<char>>|
            #[trigger] is_dependency_chain(ms2, path) && path.len() >= 2 && path[0] == a && path[path.len() - 1] == a;
        assert(is_dependency_chain(ms, path));
    }
}

proof fn lemma_errors_same_maps(ms: Seq<Manifest>, ms2: Seq<Manifest>, upto: Seq<Manifest>)
    requires
        provider_map(ms2) == provider_map(ms),
        version_map(ms2) == version_map(ms),
    ensures
        errors_of_modules(ms2, upto) == errors_of_modules(ms, upto),
    decreases upto.len(),
{
    if upto.len() > 0 {
        lemma_errors_same_maps(ms, ms2, upto.drop_last());
        lemma_deps_errors_same_maps(ms, ms2, upto.last(), upto.last().requires@);
    }
}

proof fn lemma_deps_errors_same_maps(ms: Seq<Manifest>, ms2: Seq<Manifest>, m: Manifest, deps: Seq<Dependency>)
    requires
        provider_map(ms2) == provider_map(ms),
        version_map(ms2) == version_map(ms),
    ensures
        errors_of_deps(ms2, m, deps) == errors_of_deps(ms, m, deps),
    decreases deps.len(),
{
    if deps.len() > 0 {
        lemma_deps_errors_same_maps(ms, ms2, m, deps.drop_last());
        assert(dependency_error(ms2, m, deps.last()) == dependency_error(ms, m, deps.last()));
    }
}

proof fn lemma_errors_concat(ms: Seq<Manifest>, a: Seq<Manifest>, b: Seq<Manifest>)
    ensures
        errors_of_modules(ms, a + b) == errors_of_modules(ms, a) + errors_of_modules(ms, b),
    decreases b.len(),
{
    if b.len() == 0 {
        assert(a + b =~= a);
        assert(errors_of_modules(ms, a) + errors_of_modules(ms, b) =~= errors_of_modules(ms, a));
    } else {
        lemma_errors_concat(ms, a, b.drop_last());
        assert((a + b).drop_last() =~= a + b.drop_last());
        assert((a + b).last() == b.last());
        let e = errors_of_deps(ms, b.last(), b.last().requires@);
        assert(errors_of_modules(ms, a + b) =~= errors_of_modules(ms, a) + errors_of_modules(ms, b.drop_last()) + e);
        assert(errors_of_modules(ms, a) + errors_of_modules(ms, b) =~= errors_of_modules(ms, a) + errors_of_modules(ms, b.drop_last()) + e);
    }
}

/// The dependency errors of a reordered list are those of the list, reordered.
proof fn lemma_errors_reorder(ms: Seq<Manifest>, s: Seq<Manifest>, s2: Seq<Manifest>, perm: Seq<int>)
    requires
        reorders(s, s2, perm),
    ensures
        errors_of_modules(ms, s2).to_multiset() =~= errors_of_modules(ms, s).to_multiset(),
    decreases s.len(),
{
    broadcast use vstd::seq_lib::lemma_multiset_commutative;

    let n = s.len();
    if n > 0 {
        let q = perm[n - 1];
        let rest = s.remove(q);
        let rest2 = s2.drop_last();
        let perm2 = Seq::new((n - 1) as nat, |i: int| if perm[i] < q { perm[i] } else { perm[i] - 1 });
        assert forall|i: int| 0 <= i < n - 1 implies perm[i] != q by {}
        assert(reorders(rest, rest2, perm2)) by {
            assert forall|i: int| 0 <= i < n - 1 implies 0 <= #[trigger] perm2[i] < n - 1 && rest2[i] == rest[perm2[i]] by {
                assert(perm[i] != perm[n - 1]);
                assert(rest2[i] == s2[i]);
            }
            assert forall|i: int, j: int| 0 <= i < j < n - 1 implies perm2[i] != perm2[j] by {
                assert(perm[i] != perm[j]);
                assert(perm[i] != q && perm[j] != q);
            }
            assert forall|k: int| 0 <= k < n - 1 implies #[trigger] position_used(perm2, k) by {
                let k2 = if k < q { k } else { k + 1 };
                assert(position_used(perm, k2));
                let i = choose|i: int| 0 <= i < perm.len() && perm[i] == k2;
                assert(i != n - 1);
                assert(perm2[i] == k);
            }
        }
        lemma_errors_reorder(ms, rest, rest2, perm2);
        let x = s[q];
        assert(s2[n - 1] == x);
        let left = s.take(q);
        let right = s.skip(q + 1);
        assert(s =~= left + seq![x] + right);
        assert(rest =~= left + right);
        lemma_errors_concat(ms, left + seq![x], right);
        lemma_errors_concat(ms, left, seq![x]);
        lemma_errors_concat(ms, left, right);
        assert(seq![x].drop_last() =~= Seq::<Manifest>::empty());
        let ex = errors_of_deps(ms, x, x.requires@);
        assert(seq![x].last() == x);
        assert(errors_of_modules(ms, seq![x].drop_last()) == Seq::<GraphErrorView>::empty());
        assert(errors_of_modules(ms, seq![x]) =~= ex);
        assert(errors_of_modules(ms, s2) == errors_of_modules(ms, rest2) + ex) by {
            assert(s2.drop_last() == rest2);
            assert(s2.last() == x);
        }
    }
}

/// Validation does not depend on the order of the manifests, when no two
/// capability declarations share a name: it succeeds for both orders or for
/// neither, finds the same missing and mismatched dependencies (counted with
/// multiplicity), and reports a cycle with the same members.
pub proof fn law_validation_order_independent(ms: Seq<Manifest>, ms2: Seq<Manifest>, perm: Seq<int>)
    requires
        reorders(ms, ms2, perm),
        capability_names_distinct(ms),
    ensures
        (validation_errors(ms2).len() == 0) == (validation_errors(ms).len() == 0),
        errors_of_modules(ms2, ms2).to_multiset() == errors_of_modules(ms, ms).to_multiset(),
        cycle_reported(ms2) == cycle_reported(ms),
        cycle_members(ms2).to_set() == cycle_members(ms).to_set(),
{
    lemma_reorder_basics(ms, ms2, perm);
    lemma_reorder_maps(ms, ms2, perm);
    lemma_reorder_depends(ms, ms2, perm);
    lemma_errors_same_maps(ms, ms2, ms2);
    lemma_errors_reorder(ms, ms, ms2, perm);
    assert forall|a: Seq<char>| #[trigger] on_cycle(ms2, a) == on_cycle(ms, a) by {
        lemma_same_cycles(ms, ms2, a);
    }
    assert(cycle_reported(ms2) == cycle_reported(ms)) by {
        if cycle_reported(ms) {
            let i = choose|i: int| 0 <= i < ms.len() && on_cycle(ms, #[trigger] ms[i].id@);
            assert(appears_in(ms2, ms[i]));
            let i2 = choose|i2: int| 0 <= i2 < ms2.len() && ms2[i2] == ms[i];
            assert(on_cycle(ms2, ms2[i2].id@));
        }
        if cycle_reported(ms2) {
            let i = choose|i: int| 0 <= i < ms2.len() && on_cycle(ms2, #[trigger] ms2[i].id@);
            assert(ms2[i] == ms[perm[i]]);
            assert(on_cycle(ms, ms[perm[i]].id@));
        }
    }
    lemma_unique_ids(ms);
    lemma_unique_ids(ms2);
    lemma_filter_facts(unique_ids(ms), is_on_cycle(ms));
    lemma_filter_facts(unique_ids(ms2), is_on_cycle(ms2));
    assert forall|a: Seq<char>| #[trigger] cycle_members(ms2).to_set().contains(a) == cycle_members(ms).to_set().contains(a) by {
        assert(is_on_cycle(ms2)(a) == is_on_cycle(ms)(a));
        assert(is_module_id(ms2, a) == is_module_id(ms, a));
        assert(unique_ids(ms2).contains(a) == unique_ids(ms).contains(a));
        assert(cycle_members(ms2).contains(a) == cycle_members(ms).contains(a));
    }
    assert(cycle_members(ms2).to_set() =~= cycle_members(ms).to_set());
    let d = errors_of_modules(ms, ms);
    let d2 = errors_of_modules(ms2, ms2);
    assert(d2.len() == d.len()) by {
        d.to_multiset_ensures();
        d2.to_multiset_ensures();
    }
}

} // verus!
