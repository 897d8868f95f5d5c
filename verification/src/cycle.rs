//! Cycle detection over the module dependency relation (Kahn's algorithm).

use std::collections::VecDeque;
use vstd::prelude::*;

use crate::graph::provider_map;
use crate::manifest::{Dependency, Manifest};
use crate::strmap::StrMap;

verus! {

/// Some module in the list has id `a`.
pub open spec fn is_module_id(ms: Seq<Manifest>, a: Seq<char>) -> bool {
    exists|i: int| 0 <= i < ms.len() && ms[i].id@ == a
}

/// Dependency `d`, declared by module `a`, is provided by module `b`, another module.
pub open spec fn resolves_to(ms: Seq<Manifest>, d: Dependency, a: Seq<char>, b: Seq<char>) -> bool {
    &&& provider_map(ms).contains_key(d.capability@)
    &&& provider_map(ms)[d.capability@] == b
    &&& is_module_id(ms, b)
    &&& b != a
}

/// Module `a` depends on module `b`: a module with id `a` requires a
/// capability that `b`, a module other than `a`, provides.
pub open spec fn depends_on(ms: Seq<Manifest>, a: Seq<char>, b: Seq<char>) -> bool {
    exists|i: int, j: int|
        #![trigger ms[i].requires@[j]]
        0 <= i < ms.len() && 0 <= j < ms[i].requires@.len() && ms[i].id@ == a && resolves_to(
            ms,
            ms[i].requires@[j],
            a,
            b,
        )
}

/// Link `i` of `path`: its `i`-th module depends on the next one.
pub open spec fn chain_link(ms: Seq<Manifest>, path: Seq<Seq<char>>, i: int) -> bool {
    depends_on(ms, path[i], path[i + 1])
}

/// Each module of `path` depends on the next one.
pub open spec fn is_dependency_chain(ms: Seq<Manifest>, path: Seq<Seq<char>>) -> bool {
    forall|i: int| 0 <= i < path.len() - 1 ==> #[trigger] chain_link(ms, path, i)
}

/// Module `a` starts a chain of `k` successive dependencies.
pub open spec fn dependency_chain(ms: Seq<Manifest>, a: Seq<char>, k: nat) -> bool {
    exists|path: Seq<Seq<char>>| #[trigger] is_dependency_chain(ms, path) && path.len() == k + 1 && path[0] == a
}

/// A chain of one or more dependencies leads from module `a` to module `b`.
pub open spec fn leads_to(ms: Seq<Manifest>, a: Seq<char>, b: Seq<char>) -> bool {
    exists|path: Seq<Seq<char>>|
        #[trigger] is_dependency_chain(ms, path) && path.len() >= 2 && path[0] == a && path[path.len() - 1] == b
}

/// Module `a` lies on a dependency cycle: a chain of one or more
/// dependencies leads from `a` back to `a`.
pub open spec fn on_cycle(ms: Seq<Manifest>, a: Seq<char>) -> bool {
    leads_to(ms, a, a)
}

/// The module ids in order of first appearance, each once.
pub open spec fn unique_ids(ms: Seq<Manifest>) -> Seq<Seq<char>>
    decreases ms.len(),
{
    if ms.len() == 0 {
        Seq::empty()
    } else {
        let u = unique_ids(ms.drop_last());
        if u.contains(ms.last().id@) {
            u
        } else {
            u.push(ms.last().id@)
        }
    }
}

/// No two modules share an id.
pub open spec fn ids_distinct(ms: Seq<Manifest>) -> bool {
    forall|i: int, j: int| 0 <= i < j < ms.len() ==> ms[i].id@ != ms[j].id@
}

/// The modules that lie on a dependency cycle, each once, in order of first appearance.
pub open spec fn cycle_members(ms: Seq<Manifest>) -> Seq<Seq<char>> {
    unique_ids(ms).filter(is_on_cycle(ms))
}

/// The test `on_cycle` as a predicate on ids.
pub open spec fn is_on_cycle(ms: Seq<Manifest>) -> spec_fn(Seq<char>) -> bool {
    |a: Seq<char>| on_cycle(ms, a)
}

/// Some module lies on a dependency cycle.
pub open spec fn cycle_reported(ms: Seq<Manifest>) -> bool {
    exists|i: int| 0 <= i < ms.len() && on_cycle(ms, #[trigger] ms[i].id@)
}

/// What filtering keeps: the elements that pass, each as often as before.
pub(crate) proof fn lemma_filter_facts<A>(s: Seq<A>, p: spec_fn(A) -> bool)
    ensures
        forall|x: A| s.filter(p).contains(x) <==> (s.contains(x) && p(x)),
        s.no_duplicates() ==> s.filter(p).no_duplicates(),
    decreases s.len(),
{
    reveal_with_fuel(Seq::filter, 1);
    if s.len() > 0 {
        let q = s.drop_last();
        lemma_filter_facts(q, p);
        assert forall|x: A| s.contains(x) <==> (q.contains(x) || x == s.last()) by {
            lemma_push_contains(q, s.last(), x);
            assert(q.push(s.last()) =~= s);
        }
        if p(s.last()) {
            assert forall|x: A| s.filter(p).contains(x) <==> (q.filter(p).contains(x) || x == s.last()) by {
                lemma_push_contains(q.filter(p), s.last(), x);
            }
            if s.no_duplicates() {
                assert(!q.contains(s.last())) by {
                    if q.contains(s.last()) {
                        let k = choose|k: int| 0 <= k < q.len() && q[k] == s.last();
                        assert(s[k] == s[s.len() - 1]);
                    }
                }
                assert(q.no_duplicates());
                let f = q.filter(p);
                assert forall|x: int, y: int| 0 <= x < y < f.push(s.last()).len() implies f.push(s.last())[x] != f.push(s.last())[y] by {
                    if y == f.len() {
                        assert(f.contains(f[x]));
                    }
                }
            }
        } else {
            if s.no_duplicates() {
                assert(q.no_duplicates());
            }
        }
    }
}

pub(crate) proof fn lemma_unique_ids(ms: Seq<Manifest>)
    ensures
        unique_ids(ms).no_duplicates(),
        unique_ids(ms).len() <= ms.len(),
        forall|a: Seq<char>| unique_ids(ms).contains(a) <==> is_module_id(ms, a),
    decreases ms.len(),
{
    if ms.len() > 0 {
        let p = ms.drop_last();
        let last = ms.last().id@;
        lemma_unique_ids(p);
        let u = unique_ids(p);
        if !u.contains(last) {
            assert(u.push(last).no_duplicates()) by {
                assert forall|x: int, y: int| 0 <= x < y < u.push(last).len() implies u.push(last)[x] != u.push(last)[y] by {
                    if y == u.len() {
                        assert(u.contains(u[x]));
                    }
                }
            }
        }
        assert forall|a: Seq<char>| unique_ids(ms).contains(a) <==> (u.contains(a) || a == last) by {
            if !u.contains(last) {
                if a == last {
                    assert(u.push(last)[u.len() as int] == a);
                }
                if u.contains(a) {
                    let k = choose|k: int| 0 <= k < u.len() && u[k] == a;
                    assert(u.push(last)[k] == a);
                }
            }
        }
        assert forall|a: Seq<char>| unique_ids(ms).contains(a) <==> is_module_id(ms, a) by {
            if a == last {
                assert(ms[ms.len() - 1].id@ == a);
            }
            if is_module_id(ms, a) {
                let i = choose|i: int| 0 <= i < ms.len() && ms[i].id@ == a;
                if i < ms.len() - 1 {
                    assert(p[i].id@ == a);
                    assert(is_module_id(p, a));
                }
            }
            if is_module_id(p, a) {
                let i = choose|i: int| 0 <= i < p.len() && p[i].id@ == a;
                assert(ms[i].id@ == a);
            }
        }
    }
}

/// Looks an id up among node names.
fn find_id(nodes: &Vec<String>, id: &String) -> (res: Option<usize>)
    ensures
        match res {
            Some(k) => k < nodes@.len() && nodes@[k as int]@ == id@,
            None => forall|k: int| 0 <= k < nodes@.len() ==> nodes@[k]@ != id@,
        },
{
    let n = nodes.len();
    let mut k: usize = 0;
    while k < n
        invariant
            n == nodes@.len(),
            k <= n,
            forall|j: int| 0 <= j < k ==> nodes@[j]@ != id@,
        decreases n - k,
    {
        if nodes[k] == *id {
            return Some(k);
        }
        k = k + 1;
    }
    None
}

/// The distinct module ids in order of first appearance.
fn unique_module_ids(manifests: &[Manifest]) -> (res: Vec<String>)
    ensures
        res.deep_view() == unique_ids(manifests@),
        (res@.len() == manifests@.len()) == ids_distinct(manifests@),
{
    let mut nodes: Vec<String> = Vec::new();
    let n = manifests.len();
    let mut i: usize = 0;
    while i < n
        invariant
            n == manifests@.len(),
            i <= n,
            nodes.deep_view() == unique_ids(manifests@.take(i as int)),
            nodes@.len() <= i,
            (nodes@.len() == i) == ids_distinct(manifests@.take(i as int)),
        decreases n - i,
    {
        let ghost pre = manifests@.take(i as int);
        let ghost post = manifests@.take(i + 1);
        proof {
            assert(post.drop_last() =~= pre);
            lemma_unique_ids(pre);
        }
        let id = &manifests[i].id;
        match find_id(&nodes, id) {
            Some(k) => {
                proof {
                    assert(nodes.deep_view()[k as int] == id@);
                    assert(unique_ids(pre).contains(id@));
                    assert(is_module_id(pre, id@));
                    let j = choose|j: int| 0 <= j < pre.len() && pre[j].id@ == id@;
                    assert(post[j].id@ == post[i as int].id@);
                }
            },
            None => {
                proof {
                    assert(!unique_ids(pre).contains(id@)) by {
                        if unique_ids(pre).contains(id@) {
                            let k = choose|k: int| 0 <= k < unique_ids(pre).len() && unique_ids(pre)[k] == id@;
                            assert(nodes@[k]@ == id@);
                        }
                    }
                    assert(!is_module_id(pre, id@));
                    assert(ids_distinct(post) == ids_distinct(pre)) by {
                        if ids_distinct(pre) {
                            assert forall|a: int, b: int| 0 <= a < b < post.len() implies post[a].id@ != post[b].id@ by {
                                if b < i {
                                    assert(pre[a] == post[a] && pre[b] == post[b]);
                                } else {
                                    assert(pre[a] == post[a]);
                                }
                            }
                        } else {
                            let (a, b) = choose|a: int, b: int| 0 <= a < b < pre.len() && pre[a].id@ == pre[b].id@;
                            assert(post[a] == pre[a] && post[b] == pre[b]);
                        }
                    }
                }
                nodes.push(id.clone());
            },
        }
        proof {
            assert(nodes.deep_view() =~= unique_ids(post));
        }
        i = i + 1;
    }
    proof {
        assert(manifests@.take(n as int) =~= manifests@);
    }
    nodes
}


/// Whether `x` occurs in `row`.
fn row_contains(row: &Vec<usize>, x: usize) -> (res: bool)
    ensures
        res == row@.contains(x),
{
    let n = row.len();
    let mut k: usize = 0;
    while k < n
        invariant
            n == row@.len(),
            k <= n,
            forall|j: int| 0 <= j < k ==> row@[j] != x,
        decreases n - k,
    {
        if row[k] == x {
            return true;
        }
        k = k + 1;
    }
    false
}

/// Adds `x` to row `r` unless the row holds it already.
fn add_to_row(rows: &mut Vec<Vec<usize>>, r: usize, x: usize)
    requires
        r < old(rows)@.len(),
        old(rows)@[r as int]@.no_duplicates(),
    ensures
        final(rows)@.len() == old(rows)@.len(),
        forall|k: int| 0 <= k < old(rows)@.len() && k != r ==> final(rows)@[k] == old(rows)@[k],
        final(rows)@[r as int]@.no_duplicates(),
        forall|y: usize| #[trigger] final(rows)@[r as int]@.contains(y) <==> (old(rows)@[r as int]@.contains(y) || y == x),
{
    let mut row = rows[r].clone();
    assert(row@ =~= rows@[r as int]@);
    if !row_contains(&row, x) {
        row.push(x);
        proof {
            assert forall|y: usize| row@.contains(y) <==> (old(rows)@[r as int]@.contains(y) || y == x) by {
                if y == x {
                    assert(row@[row@.len() - 1] == y);
                }
                if old(rows)@[r as int]@.contains(y) {
                    let k = choose|k: int| 0 <= k < old(rows)@[r as int]@.len() && old(rows)@[r as int]@[k] == y;
                    assert(row@[k] == y);
                }
            }
        }
    }
    rows.set(r, row);
}

/// A dependency seen before position (`i0`, `j0`) of the manifests links node `u` to node `v`.
spec fn edge_seen(ms: Seq<Manifest>, ids: Seq<Seq<char>>, i0: int, j0: int, u: int, v: int) -> bool {
    exists|i: int, j: int|
        #![trigger ms[i].requires@[j]]
        0 <= i < ms.len() && 0 <= j < ms[i].requires@.len() && (i < i0 || (i == i0 && j < j0))
            && ms[i].id@ == ids[u] && resolves_to(ms, ms[i].requires@[j], ids[u], ids[v])
}

/// The rows of the dependency relation over the nodes, and its reverse.
spec fn rows_describe(
    ms: Seq<Manifest>,
    ids: Seq<Seq<char>>,
    succ: Seq<Vec<usize>>,
    preds: Seq<Vec<usize>>,
) -> bool {
    let n = ids.len();
    &&& succ.len() == n
    &&& preds.len() == n
    &&& forall|u: int| 0 <= u < n ==> (#[trigger] succ[u])@.no_duplicates()
    &&& forall|u: int| 0 <= u < n ==> (#[trigger] preds[u])@.no_duplicates()
    &&& forall|u: int, k: int| 0 <= u < n && 0 <= k < succ[u]@.len() ==> succ[u]@[k] < n
    &&& forall|u: int, k: int| 0 <= u < n && 0 <= k < preds[u]@.len() ==> preds[u]@[k] < n
    &&& forall|u: usize, v: usize|
        u < n && v < n ==> (#[trigger] preds[v as int]@.contains(u) <==> succ[u as int]@.contains(v))
}

/// Builds, for every node, the nodes it depends on and the nodes that depend on it.
fn dependency_rows(manifests: &[Manifest], cap_map: &StrMap<String>, nodes: &Vec<String>) -> (res: (
    Vec<Vec<usize>>,
    Vec<Vec<usize>>,
))
    requires
        cap_map.wf(),
        cap_map@ == provider_map(manifests@),
        nodes.deep_view() == unique_ids(manifests@),
    ensures
        rows_describe(manifests@, nodes.deep_view(), res.0@, res.1@),
        forall|u: usize, v: usize|
            u < nodes@.len() && v < nodes@.len() ==> (#[trigger] res.0@[u as int]@.contains(v)
                <==> depends_on(manifests@, nodes.deep_view()[u as int], nodes.deep_view()[v as int])),
{
    let ghost ms = manifests@;
    let ghost ids = nodes.deep_view();
    proof {
        lemma_unique_ids(ms);
    }
    let n = nodes.len();
    let mut succ: Vec<Vec<usize>> = Vec::new();
    let mut preds: Vec<Vec<usize>> = Vec::new();
    let mut k: usize = 0;
    while k < n
        invariant
            k <= n,
            succ@.len() == k,
            preds@.len() == k,
            forall|u: int| 0 <= u < k ==> (#[trigger] succ@[u])@.len() == 0,
            forall|u: int| 0 <= u < k ==> (#[trigger] preds@[u])@.len() == 0,
        decreases n - k,
    {
        succ.push(Vec::new());
        preds.push(Vec::new());
        k = k + 1;
    }
    let m_count = manifests.len();
    let mut i: usize = 0;
    while i < m_count
        invariant
            m_count == ms.len(),
            ms == manifests@,
            ids == nodes.deep_view(),
            ids == unique_ids(ms),
            ids.no_duplicates(),
            forall|a: Seq<char>| ids.contains(a) <==> is_module_id(ms, a),
            n == ids.len(),
            cap_map.wf(),
            cap_map@ == provider_map(ms),
            i <= m_count,
            rows_describe(ms, ids, succ@, preds@),
            forall|u: usize, v: usize|
                u < n && v < n ==> (#[trigger] succ@[u as int]@.contains(v) <==> edge_seen(ms, ids, i as int, 0, u as int, v as int)),
        decreases m_count - i,
    {
        let m = &manifests[i];
        let u = match find_id(nodes, &m.id) {
            Some(u) => u,
            None => {
                proof {
                    assert(is_module_id(ms, m.id@));
                    let k = choose|k: int| 0 <= k < ids.len() && ids[k] == m.id@;
                    assert(nodes@[k]@ == m.id@);
                }
                return (succ, preds);
            },
        };
        let d_count = m.requires.len();
        let mut j: usize = 0;
        while j < d_count
            invariant
                m_count == ms.len(),
                ms == manifests@,
                ids == nodes.deep_view(),
                ids.no_duplicates(),
                forall|a: Seq<char>| ids.contains(a) <==> is_module_id(ms, a),
                n == ids.len(),
                cap_map.wf(),
                cap_map@ == provider_map(ms),
                i < m_count,
                *m == ms[i as int],
                u < n,
                ids[u as int] == m.id@,
                d_count == m.requires@.len(),
                j <= d_count,
                rows_describe(ms, ids, succ@, preds@),
                forall|u: usize, v: usize|
                    u < n && v < n ==> (#[trigger] succ@[u as int]@.contains(v) <==> edge_seen(ms, ids, i as int, j as int, u as int, v as int)),
            decreases d_count - j,
        {
            let dep = &m.requires[j];
            let ghost old_succ = succ@;
            let ghost old_preds = preds@;
            let mut linked: Option<usize> = None;
            if let Some(provider) = cap_map.get(&dep.capability) {
                if let Some(v) = find_id(nodes, provider) {
                    if *provider != m.id {
                        linked = Some(v);
                    }
                }
            }
            proof {
                assert(ms[i as int].requires@[j as int] == *dep);
            }
            match linked {
                Some(v) => {
                    proof {
                        assert(ids[v as int] == nodes@[v as int]@);
                        assert(ids.contains(ids[v as int]));
                        assert(resolves_to(ms, *dep, ids[u as int], ids[v as int]));
                    }
                    add_to_row(&mut succ, u, v);
                    add_to_row(&mut preds, v, u);
                    proof {
                        assert forall|a: usize, b: usize| a < n && b < n implies (#[trigger] succ@[a as int]@.contains(b)
                            <==> edge_seen(ms, ids, i as int, j + 1, a as int, b as int)) by {
                            if a == u && b == v {
                                assert(edge_seen(ms, ids, i as int, j + 1, a as int, b as int));
                            }
                            if edge_seen(ms, ids, i as int, j + 1, a as int, b as int) {
                                if !edge_seen(ms, ids, i as int, j as int, a as int, b as int) {
                                    let (x, y) = choose|x: int, y: int|
                                        #![trigger ms[x].requires@[y]]
                                        0 <= x < ms.len() && 0 <= y < ms[x].requires@.len() && (x < i || (x == i && y < j + 1))
                                            && ms[x].id@ == ids[a as int] && resolves_to(ms, ms[x].requires@[y], ids[a as int], ids[b as int]);
                                    assert(x == i && y == j);
                                    assert(ids[a as int] == ids[u as int]);
                                    assert(ids[b as int] == ids[v as int]);
                                }
                            }
                        }
                        assert forall|a: usize, b: usize| a < n && b < n implies (#[trigger] preds@[b as int]@.contains(a)
                            <==> succ@[a as int]@.contains(b)) by {
                            assert(old_preds[b as int]@.contains(a) <==> old_succ[a as int]@.contains(b));
                        }
                        assert forall|a: int, k: int| 0 <= a < n && 0 <= k < succ@[a]@.len() implies succ@[a]@[k] < n by {
                            if a == u {
                                assert(succ@[a]@.contains(succ@[a]@[k]));
                                if old_succ[a]@.contains(succ@[a]@[k]) {
                                    let k2 = choose|k2: int| 0 <= k2 < old_succ[a]@.len() && old_succ[a]@[k2] == succ@[a]@[k];
                                }
                            }
                        }
                        assert forall|a: int, k: int| 0 <= a < n && 0 <= k < preds@[a]@.len() implies preds@[a]@[k] < n by {
                            if a == v {
                                assert(preds@[a]@.contains(preds@[a]@[k]));
                                if old_preds[a]@.contains(preds@[a]@[k]) {
                                    let k2 = choose|k2: int| 0 <= k2 < old_preds[a]@.len() && old_preds[a]@[k2] == preds@[a]@[k];
                                }
                            }
                        }
                        assert(rows_describe(ms, ids, succ@, preds@));
                    }
                },
                None => {
                    proof {
                        assert forall|a: usize, b: usize| a < n && b < n implies (#[trigger] succ@[a as int]@.contains(b)
                            <==> edge_seen(ms, ids, i as int, j + 1, a as int, b as int)) by {
                            if edge_seen(ms, ids, i as int, j + 1, a as int, b as int) {
                                if !edge_seen(ms, ids, i as int, j as int, a as int, b as int) {
                                    let (x, y) = choose|x: int, y: int|
                                        #![trigger ms[x].requires@[y]]
                                        0 <= x < ms.len() && 0 <= y < ms[x].requires@.len() && (x < i || (x == i && y < j + 1))
                                            && ms[x].id@ == ids[a as int] && resolves_to(ms, ms[x].requires@[y], ids[a as int], ids[b as int]);
                                    assert(x == i && y == j);
                                    let p = provider_map(ms)[dep.capability@];
                                    assert(ids.contains(p));
                                    let k = choose|k: int| 0 <= k < ids.len() && ids[k] == p;
                                    assert(nodes@[k]@ == p);
                                }
                            }
                        }
                    }
                },
            }
            j = j + 1;
        }
        proof {
            assert forall|a: usize, b: usize| a < n && b < n implies (#[trigger] succ@[a as int]@.contains(b)
                <==> edge_seen(ms, ids, i + 1, 0, a as int, b as int)) by {
                if edge_seen(ms, ids, i + 1, 0, a as int, b as int) {
                    let (x, y) = choose|x: int, y: int|
                        #![trigger ms[x].requires@[y]]
                        0 <= x < ms.len() && 0 <= y < ms[x].requires@.len() && (x < i + 1 || (x == i + 1 && y < 0))
                            && ms[x].id@ == ids[a as int] && resolves_to(ms, ms[x].requires@[y], ids[a as int], ids[b as int]);
                    assert(edge_seen(ms, ids, i as int, d_count as int, a as int, b as int));
                }
            }
        }
        i = i + 1;
    }
    proof {
        assert forall|a: usize, b: usize| a < n && b < n implies (#[trigger] succ@[a as int]@.contains(b)
            <==> depends_on(ms, ids[a as int], ids[b as int])) by {
            if depends_on(ms, ids[a as int], ids[b as int]) {
                let (x, y) = choose|x: int, y: int|
                    #![trigger ms[x].requires@[y]]
                    0 <= x < ms.len() && 0 <= y < ms[x].requires@.len() && ms[x].id@ == ids[a as int]
                        && resolves_to(ms, ms[x].requires@[y], ids[a as int], ids[b as int]);
                assert(edge_seen(ms, ids, m_count as int, 0, a as int, b as int));
            }
        }
    }
    (succ, preds)
}


proof fn lemma_push_contains<T>(s: Seq<T>, x: T, w: T)
    ensures
        s.push(x).contains(w) <==> (s.contains(w) || w == x),
{
    if s.push(x).contains(w) {
        let k = choose|k: int| 0 <= k < s.push(x).len() && s.push(x)[k] == w;
        if k < s.len() {
            assert(s[k] == w);
        }
    }
    if s.contains(w) {
        let k = choose|k: int| 0 <= k < s.len() && s[k] == w;
        assert(s.push(x)[k] == w);
    }
    assert(s.push(x)[s.len() as int] == x);
}

/// How many entries of `row` are not in `done`.
spec fn outstanding(row: Seq<usize>, done: Seq<usize>) -> nat
    decreases row.len(),
{
    if row.len() == 0 {
        0
    } else {
        outstanding(row.drop_last(), done) + if done.contains(row.last()) {
            0nat
        } else {
            1nat
        }
    }
}

proof fn lemma_outstanding_zero(row: Seq<usize>, done: Seq<usize>)
    ensures
        (outstanding(row, done) == 0) <==> (forall|k: int| 0 <= k < row.len() ==> done.contains(#[trigger] row[k])),
    decreases row.len(),
{
    if row.len() > 0 {
        lemma_outstanding_zero(row.drop_last(), done);
        if outstanding(row, done) == 0 {
            assert forall|k: int| 0 <= k < row.len() implies done.contains(#[trigger] row[k]) by {
                if k < row.len() - 1 {
                    assert(row.drop_last()[k] == row[k]);
                }
            }
        }
        if forall|k: int| 0 <= k < row.len() ==> done.contains(#[trigger] row[k]) {
            assert forall|k: int| 0 <= k < row.drop_last().len() implies done.contains(#[trigger] row.drop_last()[k]) by {
                assert(row.drop_last()[k] == row[k]);
            }
            assert(done.contains(row[row.len() - 1]));
        }
    }
}

proof fn lemma_outstanding_none_done(row: Seq<usize>)
    ensures
        outstanding(row, Seq::empty()) == row.len(),
    decreases row.len(),
{
    if row.len() > 0 {
        lemma_outstanding_none_done(row.drop_last());
    }
}

proof fn lemma_outstanding_step(row: Seq<usize>, done: Seq<usize>, x: usize)
    requires
        row.no_duplicates(),
        !done.contains(x),
    ensures
        outstanding(row, done) == outstanding(row, done.push(x)) + if row.contains(x) {
            1nat
        } else {
            0nat
        },
    decreases row.len(),
{
    if row.len() > 0 {
        let p = row.drop_last();
        assert(p.no_duplicates());
        lemma_outstanding_step(p, done, x);
        assert(done.push(x).contains(row.last()) <==> (done.contains(row.last()) || row.last() == x)) by {
            if done.push(x).contains(row.last()) {
                let k = choose|k: int| 0 <= k < done.push(x).len() && done.push(x)[k] == row.last();
                if k < done.len() {
                    assert(done[k] == row.last());
                }
            }
            if done.contains(row.last()) {
                let k = choose|k: int| 0 <= k < done.len() && done[k] == row.last();
                assert(done.push(x)[k] == row.last());
            }
            assert(done.push(x)[done.len() as int] == x);
        }
        assert(row.contains(x) <==> (p.contains(x) || row.last() == x)) by {
            if row.contains(x) {
                let k = choose|k: int| 0 <= k < row.len() && row[k] == x;
                if k < row.len() - 1 {
                    assert(p[k] == x);
                }
            }
            if p.contains(x) {
                let k = choose|k: int| 0 <= k < p.len() && p[k] == x;
                assert(row[k] == x);
            }
        }
        if row.last() == x {
            assert(!p.contains(x)) by {
                if p.contains(x) {
                    let k = choose|k: int| 0 <= k < p.len() && p[k] == x;
                    assert(row[k] == row[row.len() - 1]);
                }
            }
        }
    }
}

/// The indices below `n`.
spec fn below(n: nat) -> Set<usize> {
    Set::new(|x: usize| x < n)
}

proof fn lemma_below(n: nat)
    requires
        n <= usize::MAX + 1,
    ensures
        below(n).finite(),
        below(n).len() == n,
    decreases n,
{
    if n == 0 {
        assert(below(n) =~= Set::<usize>::empty());
    } else {
        lemma_below((n - 1) as nat);
        assert(below(n) =~= below((n - 1) as nat).insert((n - 1) as usize));
    }
}

/// A sequence of distinct indices, all in a finite set, is no longer than the set.
proof fn lemma_distinct_within(s: Seq<usize>, within: Set<usize>)
    requires
        s.no_duplicates(),
        within.finite(),
        forall|k: int| 0 <= k < s.len() ==> within.contains(#[trigger] s[k]),
    ensures
        s.len() <= within.len(),
{
    s.unique_seq_to_set();
    assert(s.to_set().subset_of(within));
    vstd::set_lib::lemma_len_subset(s.to_set(), within);
}

pub(crate) proof fn lemma_chain_shorter(ms: Seq<Manifest>, a: Seq<char>, k: nat, j: nat)
    requires
        dependency_chain(ms, a, k),
        j <= k,
    ensures
        dependency_chain(ms, a, j),
{
    let path = choose|path: Seq<Seq<char>>| #[trigger] is_dependency_chain(ms, path) && path.len() == k + 1 && path[0] == a;
    let short = path.take(j + 1 as int);
    assert forall|i: int| 0 <= i < short.len() - 1 implies #[trigger] chain_link(ms, short, i) by {
        assert(chain_link(ms, path, i));
    }
    assert(is_dependency_chain(ms, short));
}

pub(crate) proof fn lemma_chain_extend(ms: Seq<Manifest>, a: Seq<char>, b: Seq<char>, k: nat)
    requires
        depends_on(ms, a, b),
        dependency_chain(ms, b, k),
    ensures
        dependency_chain(ms, a, k + 1),
{
    let path = choose|path: Seq<Seq<char>>| #[trigger] is_dependency_chain(ms, path) && path.len() == k + 1 && path[0] == b;
    let longer = seq![a] + path;
    assert forall|i: int| 0 <= i < longer.len() - 1 implies #[trigger] chain_link(ms, longer, i) by {
        if i > 0 {
            assert(chain_link(ms, path, i - 1));
            assert(longer[i] == path[i - 1] && longer[i + 1] == path[i]);
        }
    }
    assert(is_dependency_chain(ms, longer));
}

pub(crate) proof fn lemma_chain_first_step(ms: Seq<Manifest>, a: Seq<char>, k: nat) -> (b: Seq<char>)
    requires
        dependency_chain(ms, a, k + 1),
    ensures
        depends_on(ms, a, b),
        dependency_chain(ms, b, k),
{
    let path = choose|path: Seq<Seq<char>>| #[trigger] is_dependency_chain(ms, path) && path.len() == k + 2 && path[0] == a;
    let rest = path.drop_first();
    assert(chain_link(ms, path, 0));
    assert forall|i: int| 0 <= i < rest.len() - 1 implies #[trigger] chain_link(ms, rest, i) by {
        assert(chain_link(ms, path, i + 1));
    }
    assert(is_dependency_chain(ms, rest));
    path[1]
}

/// The modules of a closed chain start dependency chains of every length.
pub(crate) proof fn lemma_cycle_chains(ms: Seq<Manifest>, path: Seq<Seq<char>>, k: nat)
    requires
        is_dependency_chain(ms, path),
        path.len() >= 2,
        path[path.len() - 1] == path[0],
    ensures
        forall|i: int| 0 <= i < path.len() ==> #[trigger] dependency_chain(ms, path[i], k),
    decreases k,
{
    if k == 0 {
        assert forall|i: int| 0 <= i < path.len() implies #[trigger] dependency_chain(ms, path[i], k) by {
            let p = seq![path[i]];
            assert(is_dependency_chain(ms, p));
        }
    } else {
        lemma_cycle_chains(ms, path, (k - 1) as nat);
        assert forall|i: int| 0 <= i < path.len() implies #[trigger] dependency_chain(ms, path[i], k) by {
            let j = if i < path.len() - 1 { i } else { 0 };
            assert(path[j] == path[i]);
            assert(chain_link(ms, path, j));
            assert(dependency_chain(ms, path[j + 1], (k - 1) as nat));
            lemma_chain_extend(ms, path[j], path[j + 1], (k - 1) as nat);
        }
    }
}

/// A module on a cycle starts dependency chains of every length.
pub(crate) proof fn lemma_on_cycle_chains(ms: Seq<Manifest>, a: Seq<char>, k: nat)
    requires
        on_cycle(ms, a),
    ensures
        dependency_chain(ms, a, k),
{
    let path = choose|path: Seq<Seq<char>>|
        #[trigger] is_dependency_chain(ms, path) && path.len() >= 2 && path[0] == a && path[path.len() - 1] == a;
    lemma_cycle_chains(ms, path, k);
    assert(dependency_chain(ms, path[0], k));
}

/// A dependency of `a` is reached from `a`.
proof fn lemma_leads_step(ms: Seq<Manifest>, a: Seq<char>, b: Seq<char>)
    requires
        depends_on(ms, a, b),
    ensures
        leads_to(ms, a, b),
{
    let path = seq![a, b];
    assert(chain_link(ms, path, 0));
    assert(is_dependency_chain(ms, path));
}

/// What `a` reaches, it reaches the dependencies of too.
proof fn lemma_leads_extend(ms: Seq<Manifest>, a: Seq<char>, b: Seq<char>, c: Seq<char>)
    requires
        leads_to(ms, a, b),
        depends_on(ms, b, c),
    ensures
        leads_to(ms, a, c),
{
    let path = choose|path: Seq<Seq<char>>|
        #[trigger] is_dependency_chain(ms, path) && path.len() >= 2 && path[0] == a && path[path.len() - 1] == b;
    let longer = path.push(c);
    assert forall|i: int| 0 <= i < longer.len() - 1 implies #[trigger] chain_link(ms, longer, i) by {
        if i < path.len() - 1 {
            assert(chain_link(ms, path, i));
        }
    }
    assert(is_dependency_chain(ms, longer));
}

/// Whether node `u` can reach itself through one or more dependencies:
/// a search over the dependency rows from the nodes `u` depends on.
fn reaches_itself(
    Ghost(ms): Ghost<Seq<Manifest>>,
    Ghost(ids): Ghost<Seq<Seq<char>>>,
    succ: &Vec<Vec<usize>>,
    u: usize,
) -> (res: bool)
    requires
        ids.len() == succ@.len(),
        ids.no_duplicates(),
        u < ids.len(),
        forall|a: Seq<char>| ids.contains(a) <==> is_module_id(ms, a),
        forall|a: int, k: int| 0 <= a < ids.len() && 0 <= k < succ@[a]@.len() ==> succ@[a]@[k] < ids.len(),
        forall|a: usize, b: usize|
            a < ids.len() && b < ids.len() ==> (#[trigger] succ@[a as int]@.contains(b) <==> depends_on(ms, ids[a as int], ids[b as int])),
    ensures
        res == on_cycle(ms, ids[u as int]),
{
    let n = succ.len();
    let mut visited: Vec<bool> = Vec::new();
    let mut v: usize = 0;
    while v < n
        invariant
            v <= n,
            visited@.len() == v,
            forall|x: int| 0 <= x < v ==> !visited@[x],
        decreases n - v,
    {
        visited.push(false);
        v = v + 1;
    }
    let mut stack: Vec<usize> = Vec::new();
    let ghost mut marked: Seq<usize> = Seq::empty();
    let row = &succ[u];
    let r = row.len();
    let mut k: usize = 0;
    while k < r
        invariant
            n == ids.len(),
            n == succ@.len(),
            u < n,
            *row == succ@[u as int],
            r == row@.len(),
            k <= r,
            forall|a: int, j: int| 0 <= a < ids.len() && 0 <= j < succ@[a]@.len() ==> succ@[a]@[j] < ids.len(),
            forall|a: usize, b: usize|
                a < n && b < n ==> (#[trigger] succ@[a as int]@.contains(b) <==> depends_on(ms, ids[a as int], ids[b as int])),
            visited@.len() == n,
            marked.no_duplicates(),
            stack@ == marked,
            forall|j: int| 0 <= j < marked.len() ==> marked[j] < n,
            forall|x: usize| x < n ==> (#[trigger] visited@[x as int] <==> marked.contains(x)),
            forall|x: usize| x < n && visited@[x as int] ==> leads_to(ms, ids[u as int], ids[x as int]),
            forall|j: int| 0 <= j < k ==> visited@[row@[j] as int],
        decreases r - k,
    {
        let y = row[k];
        proof {
            assert(y < n);
        }
        if !visited[y] {
            let ghost old_marked = marked;
            visited.set(y, true);
            stack.push(y);
            proof {
                marked = marked.push(y);
                assert(row@.contains(y));
                lemma_leads_step(ms, ids[u as int], ids[y as int]);
                assert forall|x: usize| x < n implies (#[trigger] visited@[x as int] <==> marked.contains(x)) by {
                    lemma_push_contains(old_marked, y, x);
                }
                assert forall|a: int, b: int| 0 <= a < b < marked.len() implies marked[a] != marked[b] by {
                    if b == marked.len() - 1 {
                        assert(old_marked.contains(old_marked[a]));
                    }
                }
            }
        }
        k = k + 1;
    }
    proof {
        lemma_below(n as nat);
        lemma_distinct_within(marked, below(n as nat));
    }
    while stack.len() > 0
        invariant
            n == ids.len(),
            n == succ@.len(),
            u < n,
            forall|a: int, j: int| 0 <= a < ids.len() && 0 <= j < succ@[a]@.len() ==> succ@[a]@[j] < ids.len(),
            forall|a: usize, b: usize|
                a < n && b < n ==> (#[trigger] succ@[a as int]@.contains(b) <==> depends_on(ms, ids[a as int], ids[b as int])),
            visited@.len() == n,
            marked.no_duplicates(),
            marked.len() <= n,
            stack@.no_duplicates(),
            forall|j: int| 0 <= j < marked.len() ==> marked[j] < n,
            forall|j: int| 0 <= j < stack@.len() ==> marked.contains(#[trigger] stack@[j]),
            forall|x: usize| x < n ==> (#[trigger] visited@[x as int] <==> marked.contains(x)),
            forall|x: usize| x < n && visited@[x as int] ==> leads_to(ms, ids[u as int], ids[x as int]),
            forall|j: int| 0 <= j < succ@[u as int]@.len() ==> visited@[succ@[u as int]@[j] as int],
            forall|x: usize, j: int|
                x < n && visited@[x as int] && !stack@.contains(x) && 0 <= j < succ@[x as int]@.len() ==> visited@[#[trigger] succ@[x as int]@[j] as int],
        decreases n - marked.len(), stack@.len(),
    {
        let ghost marked0 = marked;
        let ghost stack0 = stack@;
        let x = stack.pop().unwrap();
        proof {
            assert(stack0 =~= stack@.push(x));
            assert(!stack@.contains(x)) by {
                if stack@.contains(x) {
                    let j = choose|j: int| 0 <= j < stack@.len() && stack@[j] == x;
                    assert(stack0[j] == stack0[stack0.len() - 1]);
                }
            }
            assert(marked.contains(stack0[stack0.len() - 1]));
            assert(x < n);
        }
        let row = &succ[x];
        let r = row.len();
        let mut k: usize = 0;
        while k < r
            invariant
                n == ids.len(),
                n == succ@.len(),
                u < n,
                x < n,
                *row == succ@[x as int],
                r == row@.len(),
                k <= r,
                visited@[x as int],
                !stack@.contains(x),
                forall|a: int, j: int| 0 <= a < ids.len() && 0 <= j < succ@[a]@.len() ==> succ@[a]@[j] < ids.len(),
                forall|a: usize, b: usize|
                    a < n && b < n ==> (#[trigger] succ@[a as int]@.contains(b) <==> depends_on(ms, ids[a as int], ids[b as int])),
                visited@.len() == n,
                marked.no_duplicates(),
                marked0.len() <= marked.len(),
                stack@.len() + 1 + marked0.len() == stack0.len() + marked.len(),
                stack@.no_duplicates(),
                forall|j: int| 0 <= j < marked.len() ==> marked[j] < n,
                forall|j: int| 0 <= j < stack@.len() ==> marked.contains(#[trigger] stack@[j]),
                forall|y: usize| y < n ==> (#[trigger] visited@[y as int] <==> marked.contains(y)),
                forall|y: usize| y < n && visited@[y as int] ==> leads_to(ms, ids[u as int], ids[y as int]),
                forall|j: int| 0 <= j < succ@[u as int]@.len() ==> visited@[succ@[u as int]@[j] as int],
                forall|y: usize, j: int|
                    y < n && y != x && visited@[y as int] && !stack@.contains(y) && 0 <= j < succ@[y as int]@.len() ==> visited@[#[trigger] succ@[y as int]@[j] as int],
                forall|j: int| 0 <= j < k ==> visited@[row@[j] as int],
            decreases r - k,
        {
            let y = row[k];
            proof {
                assert(y < n);
            }
            if !visited[y] {
                let ghost old_marked = marked;
                let ghost old_stack = stack@;
                visited.set(y, true);
                stack.push(y);
                proof {
                    marked = marked.push(y);
                    assert(row@.contains(y));
                    lemma_leads_extend(ms, ids[u as int], ids[x as int], ids[y as int]);
                    assert forall|z: usize| z < n implies (#[trigger] visited@[z as int] <==> marked.contains(z)) by {
                        lemma_push_contains(old_marked, y, z);
                    }
                    assert forall|a: int, b: int| 0 <= a < b < marked.len() implies marked[a] != marked[b] by {
                        if b == marked.len() - 1 {
                            assert(old_marked.contains(old_marked[a]));
                        }
                    }
                    assert(!old_stack.contains(y)) by {
                        if old_stack.contains(y) {
                            let j = choose|j: int| 0 <= j < old_stack.len() && old_stack[j] == y;
                            assert(old_marked.contains(old_stack[j]));
                        }
                    }
                    assert forall|a: int, b: int| 0 <= a < b < stack@.len() implies stack@[a] != stack@[b] by {
                        if b == stack@.len() - 1 {
                            assert(old_stack.contains(old_stack[a]));
                        }
                    }
                    assert forall|j: int| 0 <= j < stack@.len() implies marked.contains(#[trigger] stack@[j]) by {
                        lemma_push_contains(old_marked, y, stack@[j]);
                        if j < old_stack.len() {
                            assert(stack@[j] == old_stack[j]);
                        }
                    }
                    assert(!stack@.contains(x)) by {
                        lemma_push_contains(old_stack, y, x);
                    }
                    assert forall|z: usize, j: int|
                        z < n && z != x && visited@[z as int] && !stack@.contains(z) && 0 <= j < succ@[z as int]@.len() implies visited@[#[trigger] succ@[z as int]@[j] as int] by {
                        lemma_push_contains(old_stack, y, z);
                    }
                }
            }
            k = k + 1;
        }
        proof {
            lemma_below(n as nat);
            lemma_distinct_within(marked, below(n as nat));
        }
    }
    proof {
        let a = ids[u as int];
        if on_cycle(ms, a) {
            let path = choose|path: Seq<Seq<char>>|
                #[trigger] is_dependency_chain(ms, path) && path.len() >= 2 && path[0] == a && path[path.len() - 1] == a;
            lemma_path_visited(ms, ids, succ@, visited@, stack@, path, u, path.len() - 1);
            let w = choose|w: usize| w < n && ids[w as int] == path[path.len() - 1] && #[trigger] visited@[w as int];
            assert(ids[w as int] == ids[u as int]);
            assert(w == u);
        }
    }
    visited[u]
}

proof fn lemma_path_visited(
    ms: Seq<Manifest>,
    ids: Seq<Seq<char>>,
    succ: Seq<Vec<usize>>,
    visited: Seq<bool>,
    stack: Seq<usize>,
    path: Seq<Seq<char>>,
    u: usize,
    i: int,
)
    requires
        ids.len() == succ.len(),
        visited.len() == ids.len(),
        ids.len() <= usize::MAX,
        u < ids.len(),
        stack.len() == 0,
        forall|a: Seq<char>| ids.contains(a) <==> is_module_id(ms, a),
        forall|a: usize, b: usize|
            a < ids.len() && b < ids.len() ==> (#[trigger] succ[a as int]@.contains(b) <==> depends_on(ms, ids[a as int], ids[b as int])),
        forall|j: int| 0 <= j < succ[u as int]@.len() ==> visited[succ[u as int]@[j] as int],
        forall|x: usize, j: int|
            x < ids.len() && visited[x as int] && !stack.contains(x) && 0 <= j < succ[x as int]@.len() ==> visited[#[trigger] succ[x as int]@[j] as int],
        is_dependency_chain(ms, path),
        path.len() >= 2,
        path[0] == ids[u as int],
        1 <= i < path.len(),
    ensures
        exists|w: usize| w < ids.len() && ids[w as int] == path[i] && #[trigger] visited[w as int],
    decreases i,
{
    let prev = path[i - 1];
    assert(chain_link(ms, path, i - 1));
    let (x, y) = choose|x: int, y: int|
        #![trigger ms[x].requires@[y]]
        0 <= x < ms.len() && 0 <= y < ms[x].requires@.len() && ms[x].id@ == prev && resolves_to(ms, ms[x].requires@[y], prev, path[i]);
    assert(is_module_id(ms, path[i]));
    assert(ids.contains(path[i]));
    let w_int = choose|w: int| 0 <= w < ids.len() && ids[w] == path[i];
    let w = w_int as usize;
    if i == 1 {
        assert(succ[u as int]@.contains(w));
        let j = choose|j: int| 0 <= j < succ[u as int]@.len() && succ[u as int]@[j] == w;
        assert(visited[succ[u as int]@[j] as int]);
    } else {
        lemma_path_visited(ms, ids, succ, visited, stack, path, u, i - 1);
        let z = choose|z: usize| z < ids.len() && ids[z as int] == path[i - 1] && #[trigger] visited[z as int];
        assert(succ[z as int]@.contains(w));
        let j = choose|j: int| 0 <= j < succ[z as int]@.len() && succ[z as int]@[j] == w;
        assert(visited[succ[z as int]@[j] as int]);
    }
}

/// The state of the sort: `popped` is the order in which nodes were taken,
/// `queue` the nodes ready to be taken, `in_degree` how many of each node's
/// dependencies are still untaken.
spec fn kahn_state(
    succ: Seq<Vec<usize>>,
    in_degree: Seq<usize>,
    popped: Seq<usize>,
    queue: Seq<usize>,
    n: nat,
) -> bool {
    &&& in_degree.len() == n
    &&& (popped + queue).no_duplicates()
    &&& forall|k: int| 0 <= k < (popped + queue).len() ==> (popped + queue)[k] < n
    &&& forall|u: int| 0 <= u < n ==> #[trigger] in_degree[u] == outstanding(succ[u]@, popped)
    &&& forall|u: usize| u < n ==> ((popped.contains(u) || queue.contains(u)) <==> #[trigger] in_degree[u as int] == 0)
    &&& forall|t: int, k: int|
        0 <= t < popped.len() && 0 <= k < succ[popped[t] as int]@.len() ==> popped.take(t).contains(
            #[trigger] succ[popped[t] as int]@[k],
        )
}

/// A node taken at position `t` starts no dependency chain of length `t + 1`.
proof fn lemma_taken_bounded(
    ms: Seq<Manifest>,
    ids: Seq<Seq<char>>,
    succ: Seq<Vec<usize>>,
    popped: Seq<usize>,
    t: int,
)
    requires
        0 <= t < popped.len(),
        ids.len() == succ.len(),
        ids.len() <= usize::MAX,
        forall|k: int| 0 <= k < popped.len() ==> popped[k] < ids.len(),
        forall|a: Seq<char>| ids.contains(a) <==> is_module_id(ms, a),
        forall|u: usize, v: usize|
            u < ids.len() && v < ids.len() ==> (#[trigger] succ[u as int]@.contains(v) <==> depends_on(ms, ids[u as int], ids[v as int])),
        forall|s: int, k: int|
            0 <= s < popped.len() && 0 <= k < succ[popped[s] as int]@.len() ==> popped.take(s).contains(
                #[trigger] succ[popped[s] as int]@[k],
            ),
    ensures
        !dependency_chain(ms, ids[popped[t] as int], (t + 1) as nat),
    decreases t,
{
    let a = ids[popped[t] as int];
    if dependency_chain(ms, a, (t + 1) as nat) {
        let b = lemma_chain_first_step(ms, a, t as nat);
        let (x, y) = choose|x: int, y: int|
            #![trigger ms[x].requires@[y]]
            0 <= x < ms.len() && 0 <= y < ms[x].requires@.len() && ms[x].id@ == a && resolves_to(ms, ms[x].requires@[y], a, b);
        assert(is_module_id(ms, b));
        assert(ids.contains(b));
        let v_int = choose|v: int| 0 <= v < ids.len() && ids[v] == b;
        let v = v_int as usize;
        assert(succ[popped[t] as int]@.contains(v));
        let j = choose|j: int| 0 <= j < succ[popped[t] as int]@.len() && succ[popped[t] as int]@[j] == v;
        assert(popped.take(t).contains(succ[popped[t] as int]@[j]));
        let s = choose|s: int| 0 <= s < popped.take(t).len() && popped.take(t)[s] == v;
        assert(popped[s] == v);
        lemma_taken_bounded(ms, ids, succ, popped, s);
        lemma_chain_shorter(ms, b, t as nat, (s + 1) as nat);
    }
}

/// Detects dependency cycles with Kahn's algorithm: modules are taken once
/// every module they depend on has been taken. Returns `None` when no module
/// lies on a cycle, else the modules that do, found among those left untaken.
pub fn detect_cycle(manifests: &[Manifest], cap_map: &StrMap<String>) -> (res: Option<Vec<String>>)
    requires
        cap_map.wf(),
        cap_map@ == provider_map(manifests@),
    ensures
        res.is_none() <==> !cycle_reported(manifests@),
        res matches Some(c) ==> {
            &&& c.deep_view() == cycle_members(manifests@)
            &&& c@.len() > 0
            &&& c.deep_view().no_duplicates()
            &&& forall|k: int| 0 <= k < c@.len() ==> on_cycle(manifests@, #[trigger] c@[k]@)
        },
{
    let ghost ms = manifests@;
    let nodes = unique_module_ids(manifests);
    let ghost ids = nodes.deep_view();
    proof {
        lemma_unique_ids(ms);
    }
    let (succ, preds) = dependency_rows(manifests, cap_map, &nodes);
    let n = nodes.len();

    let mut in_degree: Vec<usize> = Vec::new();
    let mut u: usize = 0;
    while u < n
        invariant
            n == ids.len(),
            rows_describe(ms, ids, succ@, preds@),
            u <= n,
            in_degree@.len() == u,
            forall|w: int| 0 <= w < u ==> #[trigger] in_degree@[w] == succ@[w]@.len(),
        decreases n - u,
    {
        in_degree.push(succ[u].len());
        u = u + 1;
    }

    let mut queue: VecDeque<usize> = VecDeque::new();
    let mut u: usize = 0;
    while u < n
        invariant
            n == ids.len(),
            rows_describe(ms, ids, succ@, preds@),
            u <= n,
            in_degree@.len() == n,
            forall|w: int| 0 <= w < n ==> #[trigger] in_degree@[w] == succ@[w]@.len(),
            queue@.no_duplicates(),
            forall|k: int| 0 <= k < queue@.len() ==> queue@[k] < u,
            forall|w: usize| w < u ==> (queue@.contains(w) <==> #[trigger] in_degree@[w as int] == 0),
        decreases n - u,
    {
        if in_degree[u] == 0 {
            proof {
                assert(!queue@.contains(u)) by {
                    if queue@.contains(u) {
                        let k = choose|k: int| 0 <= k < queue@.len() && queue@[k] == u;
                    }
                }
            }
            let ghost q = queue@;
            queue.push_back(u);
            proof {
                assert forall|w: usize| w < u + 1 implies (queue@.contains(w) <==> #[trigger] in_degree@[w as int] == 0) by {
                    lemma_push_contains(q, u, w);
                }
                assert forall|k: int| 0 <= k < queue@.len() implies queue@[k] < u + 1 by {
                    if k < q.len() {
                        assert(queue@[k] == q[k]);
                    }
                }
            }
        }
        u = u + 1;
    }
    proof {
        assert forall|w: int| 0 <= w < n implies #[trigger] in_degree@[w] == outstanding(succ@[w]@, Seq::empty()) by {
            lemma_outstanding_none_done(succ@[w]@);
        }
        assert(Seq::<usize>::empty() + queue@ =~= queue@);
        assert forall|w: usize| w < n implies ((Seq::<usize>::empty().contains(w) || queue@.contains(w)) <==> #[trigger] in_degree@[w as int] == 0) by {}
    }

    let mut sorted_count: usize = 0;
    let ghost mut popped: Seq<usize> = Seq::empty();
    while queue.len() > 0
        invariant
            n == ids.len(),
            rows_describe(ms, ids, succ@, preds@),
            forall|a: usize, b: usize|
                a < n && b < n ==> (#[trigger] succ@[a as int]@.contains(b) <==> depends_on(ms, ids[a as int], ids[b as int])),
            kahn_state(succ@, in_degree@, popped, queue@, n as nat),
            sorted_count == popped.len(),
        decreases n - popped.len(),
    {
        proof {
            lemma_below(n as nat);
            lemma_distinct_within(popped + queue@, below(n as nat));
        }
        let ghost q0 = queue@;
        let node = queue.pop_front().unwrap();
        let ghost prev = popped;
        proof {
            popped = popped.push(node);
            assert(popped + queue@ =~= prev + q0) by {
                assert(q0 =~= seq![node] + queue@);
            }
            assert(!prev.contains(node)) by {
                if prev.contains(node) {
                    let k = choose|k: int| 0 <= k < prev.len() && prev[k] == node;
                    assert((prev + q0)[k] == (prev + q0)[prev.len() as int]);
                }
            }
            assert(q0[0] == node);
            assert((prev + q0)[prev.len() as int] == node);
            assert(node < n);
            assert(q0.contains(node));
            assert(in_degree@[node as int] == 0);
            lemma_outstanding_zero(succ@[node as int]@, prev);
            assert forall|t: int, k: int|
                0 <= t < popped.len() && 0 <= k < succ@[popped[t] as int]@.len() implies popped.take(t).contains(
                    #[trigger] succ@[popped[t] as int]@[k],
                ) by {
                if t < prev.len() {
                    assert(popped.take(t) =~= prev.take(t));
                    assert(popped[t] == prev[t]);
                } else {
                    assert(popped.take(t) =~= prev);
                }
            }
        }
        sorted_count = sorted_count + 1;
        proof {
            assert forall|u: int| 0 <= u < n implies #[trigger] in_degree@[u] == outstanding(succ@[u]@, popped) + if preds@[node as int]@.contains(u as usize) {
                1nat
            } else {
                0nat
            } by {
                lemma_outstanding_step(succ@[u]@, prev, node);
                assert(preds@[node as int]@.contains(u as usize) <==> succ@[u]@.contains(node));
            }
            assert forall|u: usize| u < n implies ((popped.contains(u) || queue@.contains(u)) <==> #[trigger] in_degree@[u as int] == 0) by {
                lemma_push_contains(prev, node, u);
                assert(q0 =~= queue@.insert(0, node));
                if q0.contains(u) && u != node {
                    let k = choose|k: int| 0 <= k < q0.len() && q0[k] == u;
                    assert(queue@[k - 1] == u);
                }
                if queue@.contains(u) {
                    let k = choose|k: int| 0 <= k < queue@.len() && queue@[k] == u;
                    assert(q0[k + 1] == u);
                }
                assert(q0[0] == node);
            }
        }
        let dependents = &preds[node];
        let d_count = dependents.len();
        proof {
            assert(dependents@.subrange(0, d_count as int) =~= dependents@);
        }
        let mut k: usize = 0;
        while k < d_count
            invariant
                n == ids.len(),
                node < n,
                rows_describe(ms, ids, succ@, preds@),
                *dependents == preds@[node as int],
                d_count == dependents@.len(),
                k <= d_count,
                forall|a: usize, b: usize|
                    a < n && b < n ==> (#[trigger] succ@[a as int]@.contains(b) <==> depends_on(ms, ids[a as int], ids[b as int])),
                in_degree@.len() == n,
                (popped + queue@).no_duplicates(),
                forall|j: int| 0 <= j < (popped + queue@).len() ==> (popped + queue@)[j] < n,
                forall|u: int| 0 <= u < n ==> #[trigger] in_degree@[u] == outstanding(succ@[u]@, popped) + if dependents@.subrange(k as int, d_count as int).contains(u as usize) {
                    1nat
                } else {
                    0nat
                },
                forall|u: usize| u < n ==> ((popped.contains(u) || queue@.contains(u)) <==> #[trigger] in_degree@[u as int] == 0),
                forall|t: int, j: int|
                    0 <= t < popped.len() && 0 <= j < succ@[popped[t] as int]@.len() ==> popped.take(t).contains(
                        #[trigger] succ@[popped[t] as int]@[j],
                    ),
            decreases d_count - k,
        {
            let p = dependents[k];
            proof {
                assert(dependents@.subrange(k as int, d_count as int)[0] == p);
                assert(p < n);
            }
            let ghost before_queue = queue@;
            in_degree.set(p, in_degree[p] - 1);
            if in_degree[p] == 0 {
                queue.push_back(p);
            }
            proof {
                let rest = dependents@.subrange(k + 1, d_count as int);
                assert(dependents@.subrange(k as int, d_count as int) =~= seq![p] + rest);
                assert(!rest.contains(p)) by {
                    if rest.contains(p) {
                        let j = choose|j: int| 0 <= j < rest.len() && rest[j] == p;
                        assert(dependents@[k + 1 + j] == dependents@[k as int]);
                    }
                }
                assert forall|u: int| 0 <= u < n implies #[trigger] in_degree@[u] == outstanding(succ@[u]@, popped) + if rest.contains(u as usize) {
                    1nat
                } else {
                    0nat
                } by {
                    if u != p {
                        assert(dependents@.subrange(k as int, d_count as int).contains(u as usize) == rest.contains(u as usize)) by {
                            if rest.contains(u as usize) {
                                let j = choose|j: int| 0 <= j < rest.len() && rest[j] == u as usize;
                                assert((seq![p] + rest)[j + 1] == u as usize);
                            }
                            if (seq![p] + rest).contains(u as usize) {
                                let j = choose|j: int| 0 <= j < (seq![p] + rest).len() && (seq![p] + rest)[j] == u as usize;
                                assert(rest[j - 1] == u as usize);
                            }
                        }
                    } else {
                        assert((seq![p] + rest)[0] == p);
                    }
                }
                assert((popped + before_queue).contains(p) == false) by {
                    if (popped + before_queue).contains(p) {
                        let j = choose|j: int| 0 <= j < (popped + before_queue).len() && (popped + before_queue)[j] == p;
                        if j < popped.len() {
                            assert(popped.contains(p));
                        } else {
                            assert(before_queue[j - popped.len()] == p);
                            assert(before_queue.contains(p));
                        }
                    }
                }
                if in_degree@[p as int] == 0 {
                    assert(popped + queue@ =~= (popped + before_queue).push(p));
                    assert forall|x: int, y: int| 0 <= x < y < (popped + queue@).len() implies (popped + queue@)[x] != (popped + queue@)[y] by {
                        if y == (popped + queue@).len() - 1 {
                            assert((popped + before_queue).contains((popped + before_queue)[x]));
                        }
                    }
                } else {
                    assert(queue@ == before_queue);
                }
                assert forall|u: usize| u < n implies ((popped.contains(u) || queue@.contains(u)) <==> #[trigger] in_degree@[u as int] == 0) by {
                    if u != p {
                        if queue@.contains(u) && !before_queue.contains(u) {
                            let j = choose|j: int| 0 <= j < queue@.len() && queue@[j] == u;
                            if j < before_queue.len() {
                                assert(before_queue[j] == u);
                            }
                        }
                        if before_queue.contains(u) {
                            let j = choose|j: int| 0 <= j < before_queue.len() && before_queue[j] == u;
                            assert(queue@[j] == u);
                        }
                    } else if in_degree@[p as int] == 0 {
                        assert(queue@[queue@.len() - 1] == p);
                    }
                }
            }
            k = k + 1;
        }
        proof {
            assert forall|u: int| 0 <= u < n implies #[trigger] in_degree@[u] == outstanding(succ@[u]@, popped) by {
                assert(!dependents@.subrange(d_count as int, d_count as int).contains(u as usize));
            }
        }
    }
    proof {
        // A node on a cycle is never taken.
        assert forall|w: usize| w < n implies (popped.contains(w) <==> #[trigger] in_degree@[w as int] == 0) by {
            assert(!queue@.contains(w));
        }
        lemma_below(n as nat);
        assert(popped + queue@ =~= popped);
        lemma_distinct_within(popped, below(n as nat));
        assert forall|w: usize| w < n && on_cycle(ms, ids[w as int]) implies !popped.contains(w) by {
            if popped.contains(w) {
                let t = choose|t: int| 0 <= t < popped.len() && popped[t] == w;
                lemma_taken_bounded(ms, ids, succ@, popped, t);
                lemma_on_cycle_chains(ms, ids[w as int], (t + 1) as nat);
            }
        }
        lemma_filter_facts(ids, is_on_cycle(ms));
        assert(cycle_reported(ms) <==> cycle_members(ms).len() > 0) by {
            if cycle_reported(ms) {
                let i = choose|i: int| 0 <= i < ms.len() && on_cycle(ms, #[trigger] ms[i].id@);
                assert(is_module_id(ms, ms[i].id@));
                assert(ids.contains(ms[i].id@));
                assert(is_on_cycle(ms)(ms[i].id@));
                assert(cycle_members(ms).contains(ms[i].id@));
            }
            if cycle_members(ms).len() > 0 {
                let a = cycle_members(ms)[0];
                assert(cycle_members(ms).contains(a));
                assert(ids.contains(a) && is_on_cycle(ms)(a));
                assert(is_module_id(ms, a));
                let i = choose|i: int| 0 <= i < ms.len() && ms[i].id@ == a;
                assert(on_cycle(ms, ms[i].id@));
            }
        }
    }
    if sorted_count == n {
        proof {
            assert forall|x: usize| x < n implies popped.contains(x) by {
                if !popped.contains(x) {
                    assert forall|k: int| 0 <= k < popped.len() implies below(n as nat).remove(x).contains(#[trigger] popped[k]) by {}
                    lemma_distinct_within(popped, below(n as nat).remove(x));
                }
            }
            assert(cycle_members(ms).len() == 0) by {
                if cycle_members(ms).len() > 0 {
                    let a = cycle_members(ms)[0];
                    assert(cycle_members(ms).contains(a));
                    assert(ids.contains(a));
                    assert(is_on_cycle(ms)(a));
                    let w = choose|w: int| 0 <= w < ids.len() && ids[w] == a;
                    assert(w < n);
                    let wu = w as usize;
                    assert(ids[wu as int] == a);
                    assert(on_cycle(ms, ids[wu as int]));
                    assert(popped.contains(wu));
                }
            }
        }
        return None;
    }
    let mut cycle: Vec<String> = Vec::new();
    let mut w: usize = 0;
    while w < n
        invariant
            n == ids.len(),
            ids == nodes.deep_view(),
            ids.no_duplicates(),
            forall|a: Seq<char>| ids.contains(a) <==> is_module_id(ms, a),
            rows_describe(ms, ids, succ@, preds@),
            forall|a: usize, b: usize|
                a < n && b < n ==> (#[trigger] succ@[a as int]@.contains(b) <==> depends_on(ms, ids[a as int], ids[b as int])),
            in_degree@.len() == n,
            w <= n,
            forall|x: usize| x < n && on_cycle(ms, ids[x as int]) ==> #[trigger] in_degree@[x as int] != 0,
            cycle.deep_view() == ids.take(w as int).filter(is_on_cycle(ms)),
        decreases n - w,
    {
        proof {
            assert(ids.take(w + 1).drop_last() =~= ids.take(w as int));
            assert(ids.take(w + 1).last() == ids[w as int]);
        }
        let ghost before = cycle.deep_view();
        if in_degree[w] > 0 && reaches_itself(Ghost(ms), Ghost(ids), &succ, w) {
            cycle.push(nodes[w].clone());
            proof {
                assert(cycle.deep_view() =~= before.push(ids[w as int]));
            }
        }
        proof {
            assert(is_on_cycle(ms)(ids[w as int]) == on_cycle(ms, ids[w as int]));
            reveal_with_fuel(Seq::filter, 1);
            assert(cycle.deep_view() =~= ids.take(w + 1).filter(is_on_cycle(ms)));
        }
        w = w + 1;
    }
    proof {
        assert(ids.take(n as int) =~= ids);
    }
    if cycle.len() == 0 {
        return None;
    }
    proof {
        assert forall|k: int| 0 <= k < cycle@.len() implies on_cycle(ms, #[trigger] cycle@[k]@) by {
            assert(cycle.deep_view()[k] == cycle@[k]@);
            assert(cycle_members(ms).contains(cycle@[k]@));
        }
    }
    Some(cycle)
}

} // verus!
