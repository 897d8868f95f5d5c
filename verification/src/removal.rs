//! Module removal safety check: blocks removal if it breaks dependents.

use vstd::prelude::*;

use crate::manifest::{Capability, Dependency, Manifest};

verus! {

/// Result of checking whether a module can be safely removed.
#[derive(Debug, Clone)]
pub struct RemovalCheck {
    /// Module being considered for removal.
    pub module_id: String,
    /// Whether removal is safe (no required dependents broken).
    pub safe: bool,
    /// Modules that would break if this module is removed.
    pub would_break: Vec<BrokenDependent>,
}

/// A module that depends on a capability that would be lost.
#[derive(Debug, Clone)]
pub struct BrokenDependent {
    pub module_id: String,
    pub capability: String,
    pub required: bool,
}

/// A `BrokenDependent` with its strings taken as character sequences.
pub struct BrokenDependentView {
    pub module_id: Seq<char>,
    pub capability: Seq<char>,
    pub required: bool,
}

impl View for BrokenDependent {
    type V = BrokenDependentView;

    open spec fn view(&self) -> BrokenDependentView {
        BrokenDependentView { module_id: self.module_id@, capability: self.capability@, required: self.required }
    }
}

/// A `RemovalCheck` with its strings and list taken by their views.
pub struct RemovalCheckView {
    pub module_id: Seq<char>,
    pub safe: bool,
    pub would_break: Seq<BrokenDependentView>,
}

impl View for RemovalCheck {
    type V = RemovalCheckView;

    open spec fn view(&self) -> RemovalCheckView {
        RemovalCheckView {
            module_id: self.module_id@,
            safe: self.safe,
            would_break: self.would_break@.map_values(|b: BrokenDependent| b@),
        }
    }
}

/// The index of the first module with id `t`.
pub open spec fn first_with_id(ms: Seq<Manifest>, t: Seq<char>) -> Option<int>
    decreases ms.len(),
{
    if ms.len() == 0 {
        None
    } else {
        match first_with_id(ms.drop_last(), t) {
            Some(i) => Some(i),
            None => if ms.last().id@ == t {
                Some(ms.len() - 1)
            } else {
                None
            },
        }
    }
}

/// The list of capabilities declares capability `c`.
pub open spec fn declares(caps: Seq<Capability>, c: Seq<char>) -> bool {
    exists|k: int| 0 <= k < caps.len() && caps[k].name@ == c
}

/// The first module with id `t` provides capability `c`.
pub open spec fn target_provides(ms: Seq<Manifest>, t: Seq<char>, c: Seq<char>) -> bool {
    match first_with_id(ms, t) {
        Some(i) => declares(ms[i].provides@, c),
        None => false,
    }
}

/// A module whose id is not `t` provides capability `c`.
pub open spec fn other_provider(ms: Seq<Manifest>, t: Seq<char>, c: Seq<char>) -> bool {
    exists|i: int| 0 <= i < ms.len() && ms[i].id@ != t && declares(#[trigger] ms[i].provides@, c)
}

/// Removing the modules with id `t` leaves dependency `d` without a provider
/// that it had from the first of them.
pub open spec fn loses_provider(ms: Seq<Manifest>, t: Seq<char>, d: Dependency) -> bool {
    target_provides(ms, t, d.capability@) && !other_provider(ms, t, d.capability@)
}

/// The broken dependents among a list of dependencies of module `m`.
pub open spec fn broken_of_deps(ms: Seq<Manifest>, t: Seq<char>, m: Manifest, deps: Seq<Dependency>) -> Seq<
    BrokenDependentView,
>
    decreases deps.len(),
{
    if deps.len() == 0 {
        Seq::empty()
    } else {
        broken_of_deps(ms, t, m, deps.drop_last()) + if loses_provider(ms, t, deps.last()) {
            seq![BrokenDependentView { module_id: m.id@, capability: deps.last().capability@, required: deps.last().required }]
        } else {
            Seq::empty()
        }
    }
}

/// The broken dependents of a list of modules, skipping the modules with id `t`.
pub open spec fn broken_of_modules(ms: Seq<Manifest>, t: Seq<char>, upto: Seq<Manifest>) -> Seq<BrokenDependentView>
    decreases upto.len(),
{
    if upto.len() == 0 {
        Seq::empty()
    } else {
        broken_of_modules(ms, t, upto.drop_last()) + if upto.last().id@ == t {
            Seq::empty()
        } else {
            broken_of_deps(ms, t, upto.last(), upto.last().requires@)
        }
    }
}

/// No broken dependent is a required one.
pub open spec fn none_required(bs: Seq<BrokenDependentView>) -> bool {
    forall|k: int| 0 <= k < bs.len() ==> !(#[trigger] bs[k]).required
}

/// The outcome of checking the removal of the modules with id `t`.
pub open spec fn removal_of(ms: Seq<Manifest>, t: Seq<char>) -> RemovalCheckView {
    let broken = broken_of_modules(ms, t, ms);
    RemovalCheckView { module_id: t, safe: none_required(broken), would_break: broken }
}

/// The index of the first module with id `target`.
fn first_index(manifests: &[Manifest], target: &String) -> (res: Option<usize>)
    ensures
        match res {
            Some(f) => f < manifests@.len() && first_with_id(manifests@, target@) == Some(f as int),
            None => first_with_id(manifests@, target@) == None::<int>,
        },
{
    let ghost ms = manifests@;
    let n = manifests.len();
    let mut i: usize = 0;
    while i < n
        invariant
            ms == manifests@,
            n == ms.len(),
            i <= n,
            first_with_id(ms.take(i as int), target@) == None::<int>,
        decreases n - i,
    {
        proof {
            assert(ms.take(i + 1).drop_last() =~= ms.take(i as int));
        }
        if manifests[i].id == *target {
            proof {
                lemma_first_with_id_prefix(ms, target@, i as int);
            }
            return Some(i);
        }
        i = i + 1;
    }
    proof {
        lemma_first_with_id_prefix(ms, target@, n as int);
    }
    None
}

/// Whether a list of strings holds `s`.
fn contains_string(list: &Vec<String>, s: &String) -> (res: bool)
    ensures
        res == exists|k: int| 0 <= k < list@.len() && list@[k]@ == s@,
{
    let n = list.len();
    let mut k: usize = 0;
    while k < n
        invariant
            n == list@.len(),
            k <= n,
            forall|j: int| 0 <= j < k ==> list@[j]@ != s@,
        decreases n - k,
    {
        if list[k] == *s {
            return true;
        }
        k = k + 1;
    }
    false
}

/// Whether a module whose id is not `target` provides `capability`.
fn other_provider_exists(manifests: &[Manifest], target: &String, capability: &String) -> (res: bool)
    ensures
        res == other_provider(manifests@, target@, capability@),
{
    let ghost ms = manifests@;
    let n = manifests.len();
    let mut i: usize = 0;
    while i < n
        invariant
            ms == manifests@,
            n == ms.len(),
            i <= n,
            forall|x: int| 0 <= x < i && ms[x].id@ != target@ ==> !declares(#[trigger] ms[x].provides@, capability@),
        decreases n - i,
    {
        let m = &manifests[i];
        if m.id != *target {
            let k = m.provides.len();
            let mut j: usize = 0;
            while j < k
                invariant
                    ms == manifests@,
                    n == ms.len(),
                    i < n,
                    *m == ms[i as int],
                    m.id@ != target@,
                    k == m.provides@.len(),
                    j <= k,
                    forall|y: int| 0 <= y < j ==> m.provides@[y].name@ != capability@,
                decreases k - j,
            {
                if m.provides[j].name == *capability {
                    proof {
                        assert(declares(ms[i as int].provides@, capability@));
                    }
                    return true;
                }
                j = j + 1;
            }
        }
        i = i + 1;
    }
    false
}

/// Check if removing `target_id` would break any other module's
/// required dependencies.
pub fn check_removal(target_id: &str, manifests: &[Manifest]) -> (res: RemovalCheck)
    ensures
        res@ == removal_of(manifests@, target_id@),
{
    let ghost ms = manifests@;
    let target = String::from_str(target_id);

    // Find capabilities provided by target module.
    let n = manifests.len();
    let found = first_index(manifests, &target);
    let first = match found {
        Some(f) => f,
        None => {
            proof {
                assert(ms.take(n as int) =~= ms);
                assert(broken_of_modules(ms, target@, ms) =~= Seq::empty()) by {
                    lemma_no_target_no_breakage(ms, target@, ms);
                }
            }
            let would_break: Vec<BrokenDependent> = Vec::new();
            proof {
                assert(would_break@.map_values(|b: BrokenDependent| b@) =~= broken_of_modules(ms, target@, ms));
            }
            return RemovalCheck { module_id: target, safe: true, would_break };
        },
    };
    let mut provided_caps: Vec<String> = Vec::new();
    let p = manifests[first].provides.len();
    let mut k: usize = 0;
    while k < p
        invariant
            ms == manifests@,
            first < n,
            n == ms.len(),
            p == ms[first as int].provides@.len(),
            k <= p,
            provided_caps@.len() == k,
            forall|x: int| 0 <= x < k ==> (#[trigger] provided_caps@[x])@ == ms[first as int].provides@[x].name@,
        decreases p - k,
    {
        provided_caps.push(manifests[first].provides[k].name.clone());
        k = k + 1;
    }
    proof {
        assert forall|c: Seq<char>| (exists|x: int| 0 <= x < provided_caps@.len() && provided_caps@[x]@ == c) <==> target_provides(ms, target@, c) by {
            if declares(ms[first as int].provides@, c) {
                let x = choose|x: int| 0 <= x < ms[first as int].provides@.len() && ms[first as int].provides@[x].name@ == c;
                assert(provided_caps@[x]@ == c);
            }
        }
    }

    // Find dependents that would break.
    let mut would_break: Vec<BrokenDependent> = Vec::new();
    let mut i: usize = 0;
    while i < n
        invariant
            ms == manifests@,
            n == ms.len(),
            i <= n,
            target@ == target_id@,
            forall|c: Seq<char>| (exists|x: int| 0 <= x < provided_caps@.len() && provided_caps@[x]@ == c) <==> target_provides(ms, target@, c),
            would_break@.map_values(|b: BrokenDependent| b@) == broken_of_modules(ms, target@, ms.take(i as int)),
        decreases n - i,
    {
        let m = &manifests[i];
        let ghost before = would_break@.map_values(|b: BrokenDependent| b@);
        proof {
            assert(ms.take(i + 1).drop_last() =~= ms.take(i as int));
            assert(ms.take(i + 1).last() == *m);
        }
        if m.id != target {
            let k = m.requires.len();
            let mut j: usize = 0;
            while j < k
                invariant
                    ms == manifests@,
                    i < n,
                    n == ms.len(),
                    *m == ms[i as int],
                    k == m.requires@.len(),
                    j <= k,
                    forall|c: Seq<char>| (exists|x: int| 0 <= x < provided_caps@.len() && provided_caps@[x]@ == c) <==> target_provides(ms, target@, c),
                    would_break@.map_values(|b: BrokenDependent| b@) == before + broken_of_deps(ms, target@, *m, m.requires@.take(j as int)),
                decreases k - j,
            {
                let dep = &m.requires[j];
                let ghost wb = would_break@;
                if contains_string(&provided_caps, &dep.capability) {
                    // Check if another module also provides this.
                    let alt_exists = other_provider_exists(manifests, &target, &dep.capability);
                    if !alt_exists {
                        would_break.push(
                            BrokenDependent { module_id: m.id.clone(), capability: dep.capability.clone(), required: dep.required },
                        );
                    }
                }
                proof {
                    assert(m.requires@.take(j + 1).drop_last() =~= m.requires@.take(j as int));
                    assert(m.requires@.take(j + 1).last() == *dep);
                    assert(would_break@.map_values(|b: BrokenDependent| b@) =~= wb.map_values(|b: BrokenDependent| b@) + if loses_provider(ms, target@, *dep) {
                        seq![BrokenDependentView { module_id: m.id@, capability: dep.capability@, required: dep.required }]
                    } else {
                        Seq::empty()
                    });
                }
                j = j + 1;
            }
            proof {
                assert(m.requires@.take(k as int) =~= m.requires@);
            }
        } else {
            proof {
                assert(would_break@.map_values(|b: BrokenDependent| b@) =~= before + Seq::<BrokenDependentView>::empty());
            }
        }
        i = i + 1;
    }
    proof {
        assert(ms.take(n as int) =~= ms);
    }

    let mut safe = true;
    let b = would_break.len();
    let mut k: usize = 0;
    while k < b
        invariant
            b == would_break@.len(),
            k <= b,
            safe == forall|x: int| 0 <= x < k ==> !(#[trigger] would_break@[x]).required,
        decreases b - k,
    {
        if would_break[k].required {
            safe = false;
        }
        k = k + 1;
    }
    proof {
        let views = would_break@.map_values(|b: BrokenDependent| b@);
        assert(safe == none_required(views)) by {
            if !safe {
                let x = choose|x: int| 0 <= x < b && would_break@[x].required;
                assert(views[x].required);
            }
            if !none_required(views) {
                let x = choose|x: int| 0 <= x < views.len() && (#[trigger] views[x]).required;
                assert(would_break@[x].required);
            }
        }
    }

    RemovalCheck { module_id: target, safe, would_break }
}

proof fn lemma_first_with_id_prefix(ms: Seq<Manifest>, t: Seq<char>, i: int)
    requires
        0 <= i <= ms.len(),
        first_with_id(ms.take(i), t) == None::<int>,
        i < ms.len() ==> ms[i].id@ == t,
    ensures
        first_with_id(ms, t) == if i < ms.len() {
            Some(i)
        } else {
            None::<int>
        },
    decreases ms.len() - i,
{
    if i == ms.len() {
        assert(ms.take(i) =~= ms);
    } else {
        let j = i + 1;
        assert(ms.take(j).drop_last() =~= ms.take(i));
        lemma_first_with_id_extend(ms, t, j);
    }
}

proof fn lemma_first_with_id_extend(ms: Seq<Manifest>, t: Seq<char>, j: int)
    requires
        0 < j <= ms.len(),
        first_with_id(ms.take(j), t) is Some,
    ensures
        first_with_id(ms, t) == first_with_id(ms.take(j), t),
    decreases ms.len() - j,
{
    if j < ms.len() {
        assert(ms.take(j + 1).drop_last() =~= ms.take(j));
        lemma_first_with_id_extend(ms, t, j + 1);
    } else {
        assert(ms.take(j) =~= ms);
    }
}

pub(crate) proof fn lemma_no_target_no_breakage(ms: Seq<Manifest>, t: Seq<char>, upto: Seq<Manifest>)
    requires
        first_with_id(ms, t) == None::<int>,
    ensures
        broken_of_modules(ms, t, upto) =~= Seq::empty(),
    decreases upto.len(),
{
    if upto.len() > 0 {
        lemma_no_target_no_breakage(ms, t, upto.drop_last());
        if upto.last().id@ != t {
            lemma_no_target_no_breakage_deps(ms, t, upto.last(), upto.last().requires@);
        }
    }
}

proof fn lemma_no_target_no_breakage_deps(ms: Seq<Manifest>, t: Seq<char>, m: Manifest, deps: Seq<Dependency>)
    requires
        first_with_id(ms, t) == None::<int>,
    ensures
        broken_of_deps(ms, t, m, deps) =~= Seq::empty(),
    decreases deps.len(),
{
    if deps.len() > 0 {
        lemma_no_target_no_breakage_deps(ms, t, m, deps.drop_last());
    }
}

} // verus!
