//! The dependency graph: which applications must run before which.

use vstd::prelude::*;
use vstd::set_lib::*;
use vstd::seq_lib::*;
use crate::domain::{Application, ApplicationView, names_view};
use crate::lifecycle::manager::{LifeCycleManager, app_named, deps_of, find_in, lemma_find_in, registered};
use crate::text::str_eq;

verus! {

/// Every dependency name that some application declares, in registry order.
pub open spec fn flat_deps(apps: Seq<ApplicationView>) -> Seq<Seq<char>>
    decreases apps.len(),
{
    if apps.len() == 0 {
        Seq::empty()
    } else {
        flat_deps(apps.drop_last()) + apps.last().deps()
    }
}

/// The set of all declared dependency names.
pub open spec fn all_deps(apps: Seq<ApplicationView>) -> Set<Seq<char>> {
    flat_deps(apps).to_set()
}

pub proof fn lemma_declared_dep(apps: Seq<ApplicationView>, k: int, j: int)
    requires
        0 <= k < apps.len(),
        0 <= j < apps[k].deps().len(),
    ensures
        all_deps(apps).contains(apps[k].deps()[j]),
    decreases apps.len(),
{
    let p = apps.drop_last();
    if k < apps.len() - 1 {
        lemma_declared_dep(p, k, j);
        assert(p[k] == apps[k]);
        let f = flat_deps(p);
        let i = choose|i: int| 0 <= i < f.len() && f[i] == apps[k].deps()[j];
        assert(flat_deps(apps)[i] == f[i]);
    } else {
        assert(flat_deps(apps)[flat_deps(p).len() + j] == apps[k].deps()[j]);
    }
}

/// The dependencies of a registered application are all declared dependency names.
pub proof fn lemma_deps_of_declared(apps: Seq<ApplicationView>, name: Seq<char>)
    ensures
        forall|j: int| 0 <= j < deps_of(apps, name).len() ==> all_deps(apps).contains(#[trigger] deps_of(apps, name)[j]),
{
    lemma_find_in(apps, name);
    if registered(apps, name) {
        let k = find_in(apps, name)->0;
        assert forall|j: int| 0 <= j < deps_of(apps, name).len() implies all_deps(apps).contains(#[trigger] deps_of(apps, name)[j]) by {
            lemma_declared_dep(apps, k, j);
        }
    }
}

/// Depth-first walk over `deps[i..]`: every name not yet in `visited` is
/// marked, its own dependencies are walked, and then it is listed
/// (dependencies before dependents). Yields the final visited set and the
/// names listed, or `None` when a name reached has no application.
/// `fuel` bounds the depth; `dependency_order` gives enough.
pub open spec fn walk(
    apps: Seq<ApplicationView>,
    deps: Seq<Seq<char>>,
    i: int,
    visited: Set<Seq<char>>,
    fuel: nat,
) -> Option<(Set<Seq<char>>, Seq<Seq<char>>)>
    decreases fuel, deps.len() - i,
{
    if i < 0 || i >= deps.len() {
        Some((visited, Seq::empty()))
    } else {
        let d = deps[i];
        if visited.contains(d) {
            walk(apps, deps, i + 1, visited, fuel)
        } else if fuel == 0 || !registered(apps, d) {
            None
        } else {
            match walk(apps, app_named(apps, d).deps(), 0, visited.insert(d), (fuel - 1) as nat) {
                None => None,
                Some(inner) => match walk(apps, deps, i + 1, inner.0, fuel) {
                    None => None,
                    Some(rest) => Some((rest.0, inner.1.push(d) + rest.1)),
                },
            }
        }
    }
}

/// The order in which the dependencies of `name` are started: a
/// depth-first, post-order walk from its declared dependencies. `None`
/// when some name reached has no application.
pub open spec fn dependency_order(apps: Seq<ApplicationView>, name: Seq<char>) -> Option<Seq<Seq<char>>> {
    match walk(apps, deps_of(apps, name), 0, Set::empty(), all_deps(apps).len()) {
        Some(r) => Some(r.1),
        None => None,
    }
}

pub proof fn lemma_push_to_set(s: Seq<Seq<char>>, x: Seq<char>)
    ensures
        s.push(x).to_set() == s.to_set().insert(x),
{
    assert forall|a: Seq<char>| s.push(x).to_set().contains(a) <==> s.to_set().insert(x).contains(a) by {
        if s.push(x).contains(a) && a != x {
            let i = choose|i: int| 0 <= i < s.push(x).len() && s.push(x)[i] == a;
            assert(s[i] == a);
        }
        if s.contains(a) {
            let i = choose|i: int| 0 <= i < s.len() && s[i] == a;
            assert(s.push(x)[i] == a);
        }
        if a == x {
            assert(s.push(x)[s.len() as int] == a);
        }
    }
    assert(s.push(x).to_set() =~= s.to_set().insert(x));
}

pub open spec fn name_set(v: Seq<String>) -> Set<Seq<char>> {
    names_view(v).to_set()
}

fn contains_name(v: &Vec<String>, name: &str) -> (r: bool)
    ensures
        r == name_set(v@).contains(name@),
{
    let n = v.len();
    for i in 0..n
        invariant
            n == v@.len(),
            forall|j: int| 0 <= j < i ==> v@[j]@ != name@,
    {
        if str_eq(v[i].as_str(), name) {
            assert(names_view(v@)[i as int] == name@);
            return true;
        }
    }
    assert(!names_view(v@).contains(name@));
    false
}

impl LifeCycleManager {
    fn walk_deps(
        &self,
        deps: &Vec<String>,
        i: usize,
        visited: &mut Vec<String>,
        result: &mut Vec<String>,
        found: &mut Vec<usize>,
        Ghost(fuel): Ghost<nat>,
    ) -> (ok: bool)
        requires
            i <= deps@.len(),
            old(found)@.len() == old(result)@.len(),
            forall|t: int| 0 <= t < old(result)@.len() ==> find_in(self@, #[trigger] old(result)@[t]@) == Some(old(found)@[t] as int),
            name_set(old(visited)@).subset_of(all_deps(self@)),
            forall|j: int| 0 <= j < deps@.len() ==> all_deps(self@).contains(#[trigger] deps@[j]@),
            all_deps(self@).difference(name_set(old(visited)@)).len() <= fuel,
        ensures
            match walk(self@, names_view(deps@), i as int, name_set(old(visited)@), fuel) {
                Some(r) => ok && name_set(final(visited)@) == r.0 && names_view(final(result)@)
                    == names_view(old(result)@) + r.1,
                None => !ok,
            },
            ok ==> name_set(old(visited)@).subset_of(name_set(final(visited)@)),
            ok ==> name_set(final(visited)@).subset_of(all_deps(self@)),
            ok ==> final(found)@.len() == final(result)@.len(),
            ok ==> forall|t: int| 0 <= t < final(result)@.len() ==> find_in(self@, #[trigger] final(result)@[t]@) == Some(final(found)@[t] as int),
        decreases fuel, deps@.len() - i,
    {
        let ghost apps = self@;
        let ghost dv = names_view(deps@);
        let ghost v0 = name_set(visited@);
        if i >= deps.len() {
            assert(names_view(result@) =~= names_view(result@) + Seq::<Seq<char>>::empty());
            return true;
        }
        let d = &deps[i];
        assert(dv[i as int] == d@);
        if contains_name(visited, d.as_str()) {
            return self.walk_deps(deps, i + 1, visited, result, found, Ghost(fuel));
        }
        proof {
            seq_to_set_is_finite(flat_deps(apps));
            all_deps(apps).lemma_set_insert_diff_decreases(v0, d@);
        }
        let k = match self.find_app(d.as_str()) {
            None => {
                return false;
            },
            Some(k) => k,
        };
        proof {
            lemma_find_in(apps, d@);
        }
        let ghost v1 = v0.insert(d@);
        visited.push(d.clone());
        assert(name_set(visited@) =~= v1) by {
            assert(names_view(visited@) =~= names_view(old(visited)@).push(d@));
            lemma_push_to_set(names_view(old(visited)@), d@);
        }
        let empty: Vec<String> = Vec::new();
        let sub: &Vec<String> = match &self.apps[k].dependencies {
            Some(v) => v,
            None => &empty,
        };
        assert(apps[k as int] == self.apps@[k as int]@);
        assert(find_in(apps, d@) is Some);
        assert(find_in(apps, d@)->0 == k as int);
        assert(app_named(apps, d@) == apps[k as int]);
        proof {
            match &self.apps@[k as int].dependencies {
                Some(v) => {
                    assert(sub@ == v@);
                },
                None => {
                    assert(sub@ == empty@);
                },
            }
        }
        assert(names_view(sub@) =~= app_named(apps, d@).deps());
        assert forall|j: int| 0 <= j < sub@.len() implies all_deps(apps).contains(#[trigger] sub@[j]@) by {
            lemma_declared_dep(apps, k as int, j);
            assert(app_named(apps, d@).deps()[j] == sub@[j]@);
        }
        let ghost r_before = names_view(result@);
        if !self.walk_deps(sub, 0, visited, result, found, Ghost((fuel - 1) as nat)) {
            return false;
        }
        let ghost v2 = name_set(visited@);
        let ghost mid = names_view(result@);
        result.push(d.clone());
        found.push(k);
        assert(names_view(result@) =~= mid.push(d@));
        proof {
            seq_to_set_is_finite(flat_deps(apps));
            lemma_len_subset(all_deps(apps).difference(v2), all_deps(apps).difference(v0));
        }
        let ghost r_mid = names_view(result@);
        let ok = self.walk_deps(deps, i + 1, visited, result, found, Ghost(fuel));
        proof {
            let inner = walk(apps, names_view(sub@), 0, v1, (fuel - 1) as nat);
            if ok {
                let rest = walk(apps, dv, i + 1, v2, fuel);
                assert(names_view(result@) =~= r_before + (inner.unwrap().1.push(d@) + rest.unwrap().1));
            }
        }
        ok
    }

    /// The dependencies to start before the application at `index`, in order
    /// (see `dependency_order`); `None` when one of them has no application.
    /// Beside each name, the index of its application.
    pub fn collect_dependency_names(&self, index: usize) -> (r: Option<(Vec<String>, Vec<usize>)>)
        requires
            index < self.apps@.len(),
            find_in(self@, self.apps@[index as int].name@) == Some(index as int),
        ensures
            match dependency_order(self@, self.apps@[index as int].name@) {
                Some(order) => r matches Some(v) && names_view(v.0@) == order && v.1@.len() == order.len()
                    && forall|t: int| 0 <= t < order.len() ==> find_in(self@, #[trigger] order[t]) == Some(v.1@[t] as int),
                None => r is None,
            },
    {
        let ghost apps = self@;
        let ghost name = self.apps@[index as int].name@;
        let empty: Vec<String> = Vec::new();
        let deps: &Vec<String> = match &self.apps[index].dependencies {
            Some(v) => v,
            None => &empty,
        };
        proof {
            lemma_find_in(apps, name);
            assert(apps[index as int] == self.apps@[index as int]@);
        }
        assert(names_view(deps@) =~= deps_of(apps, name));
        proof {
            lemma_deps_of_declared(apps, name);
            assert forall|j: int| 0 <= j < deps@.len() implies all_deps(apps).contains(#[trigger] deps@[j]@) by {
                assert(deps_of(apps, name)[j] == deps@[j]@);
            }
        }
        let mut visited: Vec<String> = Vec::new();
        let mut result: Vec<String> = Vec::new();
        let mut found: Vec<usize> = Vec::new();
        assert(name_set(visited@) =~= Set::<Seq<char>>::empty());
        proof {
            seq_to_set_is_finite(flat_deps(apps));
            assert(all_deps(apps).difference(Set::empty()) =~= all_deps(apps));
        }
        if self.walk_deps(deps, 0, &mut visited, &mut result, &mut found, Ghost(all_deps(apps).len())) {
            assert(names_view(result@) =~= Seq::<Seq<char>>::empty() + names_view(result@));
            assert forall|t: int| 0 <= t < result@.len() implies find_in(apps, #[trigger] names_view(result@)[t]) == Some(found@[t] as int) by {
                assert(names_view(result@)[t] == result@[t]@);
            }
            Some((result, found))
        } else {
            None
        }
    }
}

/// The entries `who` contributes to the consumers of `name`: one per
/// time `name` appears in `deps`.
pub open spec fn mentions(deps: Seq<Seq<char>>, name: Seq<char>, who: Seq<char>) -> Seq<Seq<char>>
    decreases deps.len(),
{
    if deps.len() == 0 {
        Seq::empty()
    } else if deps.last() == name {
        mentions(deps.drop_last(), name, who).push(who)
    } else {
        mentions(deps.drop_last(), name, who)
    }
}

/// The applications that declare `name` as a dependency, in registry order,
/// once per declaration.
pub open spec fn dependents(apps: Seq<ApplicationView>, name: Seq<char>) -> Seq<Seq<char>>
    decreases apps.len(),
{
    if apps.len() == 0 {
        Seq::empty()
    } else {
        dependents(apps.drop_last(), name) + mentions(apps.last().deps(), name, apps.last().name)
    }
}

proof fn lemma_mentions(deps: Seq<Seq<char>>, name: Seq<char>, who: Seq<char>)
    ensures
        deps.contains(name) ==> mentions(deps, name, who).contains(who),
        forall|x: Seq<char>| #[trigger] mentions(deps, name, who).contains(x) ==> x == who && deps.contains(name),
    decreases deps.len(),
{
    if deps.len() > 0 {
        let p = deps.drop_last();
        lemma_mentions(p, name, who);
        let m = mentions(deps, name, who);
        if deps.contains(name) && deps.last() != name {
            let j = choose|j: int| 0 <= j < deps.len() && deps[j] == name;
            assert(p[j] == name);
        }
        if deps.last() == name {
            assert(m[m.len() - 1] == who);
        }
        assert forall|x: Seq<char>| #[trigger] m.contains(x) implies x == who && deps.contains(name) by {
            let k = choose|k: int| 0 <= k < m.len() && m[k] == x;
            let mp = mentions(p, name, who);
            if deps.last() == name {
                assert(deps[deps.len() - 1] == name);
                assert(m == mp.push(who));
                if k < m.len() - 1 {
                    assert(mp[k] == x);
                    assert(mp.contains(x));
                }
            } else {
                assert(m == mp);
                assert(mp[k] == x);
                assert(mp.contains(x));
                assert(p.contains(name));
                let j = choose|j: int| 0 <= j < p.len() && p[j] == name;
                assert(deps[j] == name);
            }
        }
    }
}

/// Law (who depends on an application): an application counts among the
/// dependents of `name` exactly when it declares `name` anywhere in its
/// dependency list; every dependent is a registered application that does.
pub proof fn law_dependents(apps: Seq<ApplicationView>, name: Seq<char>)
    ensures
        forall|k: int, j: int| 0 <= k < apps.len() && 0 <= j < apps[k].deps().len() && #[trigger] apps[k].deps()[j] == name
            ==> dependents(apps, name).contains(apps[k].name),
        forall|x: Seq<char>| #[trigger] dependents(apps, name).contains(x) ==> exists|k: int|
            0 <= k < apps.len() && apps[k].name == x && (#[trigger] apps[k].deps()).contains(name),
    decreases apps.len(),
{
    if apps.len() > 0 {
        let p = apps.drop_last();
        let last = apps.last();
        law_dependents(p, name);
        lemma_mentions(last.deps(), name, last.name);
        let d = dependents(apps, name);
        let dp = dependents(p, name);
        let m = mentions(last.deps(), name, last.name);
        assert(d == dp + m);
        assert forall|k: int, j: int| 0 <= k < apps.len() && 0 <= j < apps[k].deps().len() && #[trigger] apps[k].deps()[j] == name
            implies d.contains(apps[k].name) by {
            if k < apps.len() - 1 {
                assert(p[k] == apps[k]);
                assert(p[k].deps()[j] == name);
                let t = choose|t: int| 0 <= t < dp.len() && dp[t] == apps[k].name;
                assert(d[t] == dp[t]);
            } else {
                assert(last.deps().contains(name)) by {
                    assert(last.deps()[j] == name);
                }
                let t = choose|t: int| 0 <= t < m.len() && m[t] == last.name;
                assert(d[dp.len() + t] == m[t]);
            }
        }
        assert forall|x: Seq<char>| #[trigger] d.contains(x) implies exists|k: int|
            0 <= k < apps.len() && apps[k].name == x && (#[trigger] apps[k].deps()).contains(name) by {
            let t = choose|t: int| 0 <= t < d.len() && d[t] == x;
            if t < dp.len() {
                assert(dp[t] == x);
                assert(dp.contains(x));
                let k = choose|k: int| 0 <= k < p.len() && p[k].name == x && (#[trigger] p[k].deps()).contains(name);
                assert(apps[k] == p[k]);
            } else {
                assert(m[t - dp.len()] == x);
                assert(m.contains(x));
                assert(apps[apps.len() - 1] == last);
            }
        }
    }
}

impl LifeCycleManager {
    /// The applications that depend on `name` (see `dependents`).
    pub fn dependents_of(&self, name: &str) -> (r: Vec<String>)
        ensures
            names_view(r@) == dependents(self@, name@),
            forall|k: int, j: int| 0 <= k < self@.len() && 0 <= j < self@[k].deps().len() && #[trigger] self@[k].deps()[j]
                == name@ ==> names_view(r@).contains(self@[k].name),
            forall|x: Seq<char>| #[trigger] names_view(r@).contains(x) ==> exists|k: int|
                0 <= k < self@.len() && self@[k].name == x && (#[trigger] self@[k].deps()).contains(name@),
    {
        proof {
            law_dependents(self@, name@);
        }
        let mut r: Vec<String> = Vec::new();
        let n = self.apps.len();
        for i in 0..n
            invariant
                n == self.apps@.len(),
                names_view(r@) == dependents(self@.take(i as int), name@),
        {
            let a = &self.apps[i];
            let ghost av = self@[i as int];
            assert(av == a@);
            assert(self@.take(i + 1).drop_last() =~= self@.take(i as int));
            let empty: Vec<String> = Vec::new();
            let deps: &Vec<String> = match &a.dependencies {
                Some(v) => v,
                None => &empty,
            };
            assert(names_view(deps@) =~= av.deps());
            let ghost before = names_view(r@);
            let m = deps.len();
            for j in 0..m
                invariant
                    m == deps@.len(),
                    names_view(deps@) == av.deps(),
                    av.name == a.name@,
                    names_view(r@) == before + mentions(av.deps().take(j as int), name@, av.name),
            {
                assert(av.deps().take(j + 1).drop_last() =~= av.deps().take(j as int));
                assert(av.deps()[j as int] == deps@[j as int]@);
                if str_eq(deps[j].as_str(), name) {
                    let ghost prev = names_view(r@);
                    r.push(a.name.clone());
                    assert(names_view(r@) =~= prev.push(av.name));
                    assert(mentions(av.deps().take(j + 1), name@, av.name) == mentions(av.deps().take(j as int), name@, av.name).push(av.name));
                    assert(names_view(r@) =~= before + mentions(av.deps().take(j + 1), name@, av.name));
                } else {
                    assert(names_view(r@) =~= before + mentions(av.deps().take(j + 1), name@, av.name));
                }
            }
            assert(av.deps().take(m as int) =~= av.deps());
        }
        assert(self@.take(n as int) =~= self@);
        r
    }
}

// ---------------------------------------------------------------- reachability

/// `w` is a declared dependency of the registered application `u`.
pub open spec fn edge(apps: Seq<ApplicationView>, u: Seq<char>, w: Seq<char>) -> bool {
    registered(apps, u) && deps_of(apps, u).contains(w)
}

/// A chain of at least one dependency edge.
pub open spec fn is_path(apps: Seq<ApplicationView>, p: Seq<Seq<char>>) -> bool {
    &&& p.len() >= 2
    &&& forall|k: int| 0 <= k < p.len() - 1 ==> edge(apps, #[trigger] p[k], p[k + 1])
}

/// `w` can be reached from `u` by following one or more dependency edges.
pub open spec fn reaches(apps: Seq<ApplicationView>, u: Seq<char>, w: Seq<char>) -> bool {
    exists|p: Seq<Seq<char>>| is_path(apps, p) && p[0] == u && p.last() == w
}

proof fn lemma_reaches_edge(apps: Seq<ApplicationView>, u: Seq<char>, w: Seq<char>)
    requires
        edge(apps, u, w),
    ensures
        reaches(apps, u, w),
{
    let p = seq![u, w];
    assert(p[0] == u && p[1] == w && p.last() == w);
    assert forall|k: int| 0 <= k < p.len() - 1 implies edge(apps, #[trigger] p[k], p[k + 1]) by {
        assert(k == 0);
    }
    assert(is_path(apps, p));
}

proof fn lemma_reaches_prepend(apps: Seq<ApplicationView>, u: Seq<char>, v: Seq<char>, w: Seq<char>)
    requires
        edge(apps, u, v),
        reaches(apps, v, w),
    ensures
        reaches(apps, u, w),
{
    let p = choose|p: Seq<Seq<char>>| is_path(apps, p) && p[0] == v && p.last() == w;
    let q = seq![u] + p;
    assert forall|k: int| 0 <= k < q.len() - 1 implies edge(apps, #[trigger] q[k], q[k + 1]) by {
        if k > 0 {
            assert(q[k] == p[k - 1] && q[k + 1] == p[k]);
        }
    }
    assert(is_path(apps, q));
    assert(q.last() == p.last());
}

/// Either `x` is `d`, or it is reached from `d`: in both cases the edge
/// `u -> d` makes it reached from `u`.
proof fn lemma_reaches_via(apps: Seq<ApplicationView>, u: Seq<char>, d: Seq<char>, x: Seq<char>)
    requires
        edge(apps, u, d),
        x == d || reaches(apps, d, x),
    ensures
        reaches(apps, u, x),
{
    if x == d {
        lemma_reaches_edge(apps, u, d);
    } else {
        lemma_reaches_prepend(apps, u, d, x);
    }
}

/// `x` is one of `deps[i..]` or is reached from one of them.
pub open spec fn sourced(apps: Seq<ApplicationView>, deps: Seq<Seq<char>>, i: int, x: Seq<char>) -> bool {
    exists|j: int| i <= j < deps.len() && (x == #[trigger] deps[j] || reaches(apps, deps[j], x))
}

/// What a successful walk establishes, over the call's own arguments.
pub open spec fn walk_facts(
    apps: Seq<ApplicationView>,
    deps: Seq<Seq<char>>,
    i: int,
    visited: Set<Seq<char>>,
    out: Set<Seq<char>>,
    r: Seq<Seq<char>>,
) -> bool {
    &&& out == visited.union(r.to_set())
    &&& r.no_duplicates()
    &&& forall|k: int| 0 <= k < r.len() ==> !visited.contains(#[trigger] r[k])
    &&& forall|k: int| 0 <= k < r.len() ==> registered(apps, #[trigger] r[k])
    &&& forall|j: int| i <= j < deps.len() ==> out.contains(#[trigger] deps[j])
    &&& forall|k: int, y: Seq<char>| 0 <= k < r.len() && #[trigger] deps_of(apps, r[k]).contains(y) ==> out.contains(y)
    &&& forall|k: int| 0 <= k < r.len() ==> sourced(apps, deps, i, #[trigger] r[k])
    &&& forall|k: int, y: Seq<char>| 0 <= k < r.len() && #[trigger] deps_of(apps, r[k]).contains(y) ==>
        (exists|b: int| 0 <= b < k && #[trigger] r[b] == y) || visited.contains(y) || reaches(apps, y, r[k])
}

proof fn lemma_walk(apps: Seq<ApplicationView>, deps: Seq<Seq<char>>, i: int, visited: Set<Seq<char>>, fuel: nat)
    requires
        0 <= i <= deps.len(),
    ensures
        walk(apps, deps, i, visited, fuel) matches Some(res) ==> walk_facts(apps, deps, i, visited, res.0, res.1),
    decreases fuel, deps.len() - i,
{
    if i >= deps.len() {
        assert(visited.union(Seq::<Seq<char>>::empty().to_set()) =~= visited);
        return;
    }
    let d = deps[i];
    if visited.contains(d) {
        lemma_walk(apps, deps, i + 1, visited, fuel);
        if let Some(res) = walk(apps, deps, i + 1, visited, fuel) {
            let r = res.1;
            assert forall|k: int| 0 <= k < r.len() implies sourced(apps, deps, i, #[trigger] r[k]) by {
                assert(sourced(apps, deps, i + 1, r[k]));
                let j = choose|j: int| i + 1 <= j < deps.len() && (r[k] == #[trigger] deps[j] || reaches(apps, deps[j], r[k]));
                assert(i <= j < deps.len() && (r[k] == deps[j] || reaches(apps, deps[j], r[k])));
            }
        }
        return;
    }
    if fuel == 0 || !registered(apps, d) {
        return;
    }
    let dd = app_named(apps, d).deps();
    assert(dd == deps_of(apps, d));
    let v1 = visited.insert(d);
    lemma_walk(apps, dd, 0, v1, (fuel - 1) as nat);
    let inner = walk(apps, dd, 0, v1, (fuel - 1) as nat);
    if inner is None {
        return;
    }
    let vi = inner.unwrap().0;
    let r1 = inner.unwrap().1;
    lemma_walk(apps, deps, i + 1, vi, fuel);
    let rest = walk(apps, deps, i + 1, vi, fuel);
    if rest is None {
        return;
    }
    let v2 = rest.unwrap().0;
    let r2 = rest.unwrap().1;
    let r = r1.push(d) + r2;
    let n1: int = r1.len() as int;
    assert(walk(apps, deps, i, visited, fuel) == Some((v2, r)));
    // Every name listed by the inner walk is reached from `d`.
    assert forall|k: int| 0 <= k < n1 implies reaches(apps, d, #[trigger] r1[k]) by {
        assert(sourced(apps, dd, 0, r1[k]));
        let j = choose|j: int| 0 <= j < dd.len() && (r1[k] == #[trigger] dd[j] || reaches(apps, dd[j], r1[k]));
        assert(edge(apps, d, dd[j]));
        lemma_reaches_via(apps, d, dd[j], r1[k]);
    }
    assert forall|k: int| 0 <= k < r.len() implies (k < n1 ==> r[k] == r1[k]) && (k == n1 ==> r[k] == d) && (k > n1 ==> r[k] == r2[k - n1 - 1]) by {}
    // The final visited set.
    assert(v2 =~= visited.union(r.to_set())) by {
        assert forall|x: Seq<char>| v2.contains(x) <==> visited.union(r.to_set()).contains(x) by {
            if r1.contains(x) {
                let k = choose|k: int| 0 <= k < n1 && r1[k] == x;
                assert(r[k] == x);
            }
            if r2.contains(x) {
                let k = choose|k: int| 0 <= k < r2.len() && r2[k] == x;
                assert(r[k + n1 + 1] == x);
            }
            if x == d {
                assert(r[n1] == x);
            }
            if r.contains(x) {
                let k = choose|k: int| 0 <= k < r.len() && r[k] == x;
                if k < n1 {
                    assert(r1.contains(x));
                } else if k > n1 {
                    assert(r2[k - n1 - 1] == x);
                    assert(r2.contains(x));
                }
            }
        }
    }
    assert(r.no_duplicates()) by {
        assert forall|a: int, b: int| 0 <= a < r.len() && 0 <= b < r.len() && a != b implies r[a] != r[b] by {
            if a > n1 {
                assert(!vi.contains(r2[a - n1 - 1]));
            }
            if b > n1 {
                assert(!vi.contains(r2[b - n1 - 1]));
            }
            if a < n1 && b > n1 {
                assert(vi.contains(r1[a])) by {
                    assert(r1.contains(r1[a]));
                }
            }
            if b < n1 && a > n1 {
                assert(vi.contains(r1[b])) by {
                    assert(r1.contains(r1[b]));
                }
            }
        }
    }
    assert forall|k: int| 0 <= k < r.len() implies !visited.contains(#[trigger] r[k]) && registered(apps, r[k]) by {
        if k > n1 {
            assert(!vi.contains(r2[k - n1 - 1]));
        }
    }
    assert forall|j: int| i <= j < deps.len() implies v2.contains(#[trigger] deps[j]) by {
        if j == i {
            assert(vi.contains(d));
        }
    }
    assert forall|k: int, y: Seq<char>| 0 <= k < r.len() && #[trigger] deps_of(apps, r[k]).contains(y) implies v2.contains(y) by {
        if k == n1 {
            let t = choose|t: int| 0 <= t < dd.len() && dd[t] == y;
            assert(vi.contains(dd[t]));
        } else if k < n1 {
            assert(vi.contains(y));
        } else {
            assert(deps_of(apps, r2[k - n1 - 1]).contains(y));
        }
    }
    assert forall|k: int| 0 <= k < r.len() implies sourced(apps, deps, i, #[trigger] r[k]) by {
        if k < n1 {
            assert(reaches(apps, deps[i], r[k]));
        } else if k == n1 {
            assert(r[k] == deps[i]);
        } else {
            let kk = k - n1 - 1;
            assert(r2[kk] == r[k]);
            assert(sourced(apps, deps, i + 1, r2[kk]));
            let j = choose|j: int| i + 1 <= j < deps.len() && (r2[kk] == #[trigger] deps[j] || reaches(apps, deps[j], r2[kk]));
            assert(i <= j < deps.len() && (r[k] == deps[j] || reaches(apps, deps[j], r[k])));
        }
    }
    assert forall|k: int, y: Seq<char>| 0 <= k < r.len() && #[trigger] deps_of(apps, r[k]).contains(y) implies
        (exists|b: int| 0 <= b < k && #[trigger] r[b] == y) || visited.contains(y) || reaches(apps, y, r[k]) by {
        if k < n1 {
            assert(r1[k] == r[k]);
            assert(deps_of(apps, r1[k]).contains(y));
            if exists|b: int| 0 <= b < k && #[trigger] r1[b] == y {
                let b = choose|b: int| 0 <= b < k && #[trigger] r1[b] == y;
                assert(r[b] == y);
            } else if v1.contains(y) && y == d {
                assert(reaches(apps, d, r1[k]));
            }
        } else if k == n1 {
            assert(vi.contains(y));
            if r1.contains(y) {
                let b = choose|b: int| 0 <= b < n1 && r1[b] == y;
                assert(r[b] == y);
            } else if y == d {
                assert(edge(apps, d, d));
                lemma_reaches_edge(apps, d, d);
            }
        } else {
            let kk = k - n1 - 1;
            assert(r2[kk] == r[k]);
            assert(deps_of(apps, r2[kk]).contains(y));
            if exists|b: int| 0 <= b < kk && #[trigger] r2[b] == y {
                let b = choose|b: int| 0 <= b < kk && #[trigger] r2[b] == y;
                assert(r[b + n1 + 1] == y);
            } else if vi.contains(y) && !visited.contains(y) && !reaches(apps, y, r[k]) {
                if y == d {
                    assert(r[n1] == y);
                } else {
                    assert(r1.contains(y));
                    let b = choose|b: int| 0 <= b < n1 && r1[b] == y;
                    assert(r[b] == y);
                }
            }
        }
    }
}

/// Whatever is reached is some application's declared dependency.
proof fn lemma_reached_declared(apps: Seq<ApplicationView>, u: Seq<char>, x: Seq<char>)
    requires
        reaches(apps, u, x),
    ensures
        all_deps(apps).contains(x),
{
    let p = choose|p: Seq<Seq<char>>| is_path(apps, p) && p[0] == u && p.last() == x;
    let k = p.len() - 2;
    assert(edge(apps, p[k], p[k + 1]));
    lemma_deps_of_declared(apps, p[k]);
    let t = choose|t: int| 0 <= t < deps_of(apps, p[k]).len() && deps_of(apps, p[k])[t] == x;
}

proof fn lemma_walk_none(apps: Seq<ApplicationView>, deps: Seq<Seq<char>>, i: int, visited: Set<Seq<char>>, fuel: nat)
    requires
        0 <= i <= deps.len(),
        visited.subset_of(all_deps(apps)),
        forall|j: int| 0 <= j < deps.len() ==> all_deps(apps).contains(#[trigger] deps[j]),
        all_deps(apps).difference(visited).len() <= fuel,
    ensures
        walk(apps, deps, i, visited, fuel) is None ==> exists|x: Seq<char>| sourced(apps, deps, i, x) && !registered(apps, x),
    decreases fuel, deps.len() - i,
{
    if i >= deps.len() {
        return;
    }
    let d = deps[i];
    seq_to_set_is_finite(flat_deps(apps));
    if visited.contains(d) {
        lemma_walk_none(apps, deps, i + 1, visited, fuel);
        if walk(apps, deps, i, visited, fuel) is None {
            let x = choose|x: Seq<char>| sourced(apps, deps, i + 1, x) && !registered(apps, x);
            let j = choose|j: int| i + 1 <= j < deps.len() && (x == #[trigger] deps[j] || reaches(apps, deps[j], x));
            assert(sourced(apps, deps, i, x));
        }
        return;
    }
    if fuel == 0 {
        all_deps(apps).lemma_set_insert_diff_decreases(visited, d);
        return;
    }
    if !registered(apps, d) {
        assert(sourced(apps, deps, i, d));
        return;
    }
    let dd = app_named(apps, d).deps();
    assert(dd == deps_of(apps, d));
    lemma_deps_of_declared(apps, d);
    let v1 = visited.insert(d);
    all_deps(apps).lemma_set_insert_diff_decreases(visited, d);
    lemma_walk_none(apps, dd, 0, v1, (fuel - 1) as nat);
    let inner = walk(apps, dd, 0, v1, (fuel - 1) as nat);
    if inner is None {
        let x = choose|x: Seq<char>| sourced(apps, dd, 0, x) && !registered(apps, x);
        let j = choose|j: int| 0 <= j < dd.len() && (x == #[trigger] dd[j] || reaches(apps, dd[j], x));
        assert(edge(apps, d, dd[j]));
        lemma_reaches_via(apps, d, dd[j], x);
        assert(sourced(apps, deps, i, x));
        return;
    }
    lemma_walk(apps, dd, 0, v1, (fuel - 1) as nat);
    let vi = inner.unwrap().0;
    let r1 = inner.unwrap().1;
    assert(vi.subset_of(all_deps(apps))) by {
        assert forall|x: Seq<char>| vi.contains(x) implies all_deps(apps).contains(x) by {
            if !v1.contains(x) {
                let k = choose|k: int| 0 <= k < r1.len() && r1[k] == x;
                assert(sourced(apps, dd, 0, r1[k]));
                let j = choose|j: int| 0 <= j < dd.len() && (r1[k] == #[trigger] dd[j] || reaches(apps, dd[j], r1[k]));
                if x != dd[j] {
                    lemma_reached_declared(apps, dd[j], x);
                }
            }
        }
    }
    lemma_len_subset(all_deps(apps).difference(vi), all_deps(apps).difference(visited));
    lemma_walk_none(apps, deps, i + 1, vi, fuel);
    if walk(apps, deps, i + 1, vi, fuel) is None {
        let x = choose|x: Seq<char>| sourced(apps, deps, i + 1, x) && !registered(apps, x);
        let j = choose|j: int| i + 1 <= j < deps.len() && (x == #[trigger] deps[j] || reaches(apps, deps[j], x));
        assert(sourced(apps, deps, i, x));
    }
}

/// Law (dependency order): when the dependencies of `name` can be ordered,
/// the order lists each one once; every listed name is a registered
/// application reached from `name`; every dependency of `name`, and of each
/// listed name, is listed; and each listed name comes after its own
/// dependencies, except a dependency that is reached back from it (a cycle).
pub proof fn law_dependency_order(apps: Seq<ApplicationView>, name: Seq<char>)
    ensures
        dependency_order(apps, name) matches Some(order) ==> {
            &&& order.no_duplicates()
            &&& forall|k: int| 0 <= k < order.len() ==> registered(apps, #[trigger] order[k]) && reaches(apps, name, order[k])
            &&& forall|y: Seq<char>| #[trigger] deps_of(apps, name).contains(y) ==> order.contains(y)
            &&& forall|k: int, y: Seq<char>| 0 <= k < order.len() && #[trigger] deps_of(apps, order[k]).contains(y) ==> order.contains(y)
            &&& forall|k: int, y: Seq<char>| 0 <= k < order.len() && #[trigger] deps_of(apps, order[k]).contains(y) ==>
                (exists|b: int| 0 <= b < k && #[trigger] order[b] == y) || reaches(apps, y, order[k])
        },
{
    let deps = deps_of(apps, name);
    let fuel = all_deps(apps).len();
    lemma_walk(apps, deps, 0, Set::empty(), fuel);
    if let Some(res) = walk(apps, deps, 0, Set::empty(), fuel) {
        let order = res.1;
        assert(res.0 =~= order.to_set());
        assert forall|k: int| 0 <= k < order.len() implies registered(apps, #[trigger] order[k]) && reaches(apps, name, order[k]) by {
            assert(sourced(apps, deps, 0, order[k]));
            let j = choose|j: int| 0 <= j < deps.len() && (order[k] == #[trigger] deps[j] || reaches(apps, deps[j], order[k]));
            assert(registered(apps, name));
            assert(edge(apps, name, deps[j]));
            lemma_reaches_via(apps, name, deps[j], order[k]);
        }
        assert forall|y: Seq<char>| #[trigger] deps_of(apps, name).contains(y) implies order.contains(y) by {
            let j = choose|j: int| 0 <= j < deps.len() && deps[j] == y;
            assert(res.0.contains(deps[j]));
        }
    }
}

/// Law (dependency order, completeness): everything reached from `name` is
/// in its dependency order.
pub proof fn law_dependency_order_complete(apps: Seq<ApplicationView>, name: Seq<char>, x: Seq<char>)
    requires
        reaches(apps, name, x),
        dependency_order(apps, name) is Some,
    ensures
        dependency_order(apps, name)->0.contains(x),
{
    law_dependency_order(apps, name);
    let order = dependency_order(apps, name)->0;
    let p = choose|p: Seq<Seq<char>>| is_path(apps, p) && p[0] == name && p.last() == x;
    assert(edge(apps, p[0], p[1]));
    assert(deps_of(apps, name).contains(p[1]));
    lemma_path_closed(apps, order, p, 1);
}

proof fn lemma_path_closed(apps: Seq<ApplicationView>, order: Seq<Seq<char>>, p: Seq<Seq<char>>, k: int)
    requires
        1 <= k <= p.len() - 1,
        is_path(apps, p),
        order.contains(p[k]),
        forall|kk: int, y: Seq<char>| 0 <= kk < order.len() && #[trigger] deps_of(apps, order[kk]).contains(y) ==> order.contains(y),
    ensures
        order.contains(p.last()),
    decreases p.len() - k,
{
    if k < p.len() - 1 {
        assert(edge(apps, p[k], p[k + 1]));
        let b = choose|b: int| 0 <= b < order.len() && order[b] == p[k];
        assert(deps_of(apps, order[b]).contains(p[k + 1]));
        lemma_path_closed(apps, order, p, k + 1);
    }
}

/// Law (dependency order, failure): the dependencies of `name` cannot be
/// ordered only when some name reached from it has no application.
pub proof fn law_dependency_order_missing(apps: Seq<ApplicationView>, name: Seq<char>)
    requires
        dependency_order(apps, name) is None,
    ensures
        exists|x: Seq<char>| reaches(apps, name, x) && !registered(apps, x),
{
    let deps = deps_of(apps, name);
    seq_to_set_is_finite(flat_deps(apps));
    lemma_deps_of_declared(apps, name);
    assert(all_deps(apps).difference(Set::empty()) =~= all_deps(apps));
    lemma_walk_none(apps, deps, 0, Set::empty(), all_deps(apps).len());
    let x = choose|x: Seq<char>| sourced(apps, deps, 0, x) && !registered(apps, x);
    let j = choose|j: int| 0 <= j < deps.len() && (x == #[trigger] deps[j] || reaches(apps, deps[j], x));
    assert(registered(apps, name));
    assert(edge(apps, name, deps[j]));
    lemma_reaches_via(apps, name, deps[j], x);
}

} // verus!
