//! Merging variables across a dependency closure.
//!
//! The resolver's order is applied to produce one variable mapping: a
//! profile closer to the root of the activation overwrites a deeper
//! dependency for the same key, and a profile's own variables always win
//! over anything inherited.

use vstd::prelude::*;

use crate::graph::DependencyError;
use crate::graph::ProfileGraph;
use crate::loader::ConfigManager;
use crate::models::Profile;
use crate::models::ProfileSet;
use crate::models::assoc_get;
use crate::models::assoc_keys;
use crate::models::str_eq;

verus! {

/// `x` belongs to the dependency closure of one of the listed names.
pub open spec fn in_closure(g: ProfileGraph, names: Seq<Seq<char>>, x: Seq<char>) -> bool {
    exists|i: int| 0 <= i < names.len() && g.reaches(#[trigger] names[i], x)
}

/// The profile stored under `x` gives the key `k` some value.
pub open spec fn defines(ps: ProfileSet, x: Seq<char>, k: Seq<char>) -> bool {
    match ps.lookup(x) {
        Some(p) => assoc_get(p.vars(), k) is Some,
        None => false,
    }
}

/// The profile stored under `x` gives the key `k` the value `v`.
pub open spec fn defines_value(ps: ProfileSet, x: Seq<char>, k: Seq<char>, v: Seq<char>) -> bool {
    match ps.lookup(x) {
        Some(p) => assoc_get(p.vars(), k) == Some(v),
        None => false,
    }
}

/// Every loaded working copy is a proper mapping.
pub open spec fn loaded_profiles_wf(ps: ProfileSet) -> bool {
    forall|x: Seq<char>|
        match #[trigger] ps.lookup(x) {
            Some(p) => p.wf(),
            None => true,
        }
}

/// A linearization of the dependency closure of the listed names:
/// duplicate-free, exactly the closure, dependencies strictly before
/// dependents.
pub open spec fn ordered_closure(g: ProfileGraph, ns: Seq<Seq<char>>, ord: Seq<Seq<char>>) -> bool {
    &&& ord.no_duplicates()
    &&& (forall|x: Seq<char>| ord.contains(x) <==> in_closure(g, ns, x))
    &&& (forall|a: int, b: int|
        0 <= a < ord.len() && 0 <= b < ord.len() && g.dep(#[trigger] ord[a], #[trigger] ord[b])
            ==> b < a)
}

/// The value the merge gives a key: the value of the last profile along
/// the order that defines it, later profiles overwriting earlier ones.
pub open spec fn last_defined(ps: ProfileSet, ord: Seq<Seq<char>>, k: Seq<char>) -> Option<
    Seq<char>,
>
    decreases ord.len(),
{
    if ord.len() == 0 {
        None
    } else {
        match ps.lookup(ord.last()) {
            Some(p) => match assoc_get(p.vars(), k) {
                Some(v) => Some(v),
                None => last_defined(ps, ord.drop_last(), k),
            },
            None => last_defined(ps, ord.drop_last(), k),
        }
    }
}

/// Whether the list of names holds `x`.
fn name_list_contains(v: &Vec<String>, x: &str) -> (r: bool)
    ensures
        r == v.deep_view().contains(x@),
{
    let n = v.len();
    for i in 0..n
        invariant
            n == v@.len(),
            forall|j: int| 0 <= j < i ==> v.deep_view()[j] != x@,
    {
        if str_eq(v[i].as_str(), x) {
            proof {
                assert(v.deep_view()[i as int] == x@);
            }
            return true;
        }
    }
    proof {
        if v.deep_view().contains(x@) {
            let j = choose|j: int| 0 <= j < v.deep_view().len() && v.deep_view()[j] == x@;
        }
    }
    false
}

/// Computes the merge order: the union of the resolver's order for each
/// listed name, first seen first, the listed names themselves included.
#[verifier::rlimit(50)]
#[verifier::spinoff_prover]
fn closure_order(config_manager: &ConfigManager, names: &Vec<String>) -> (r: Result<
    Vec<String>,
    DependencyError,
>)
    requires
        config_manager.wf(),
    ensures
        match r {
            Ok(order) => {
                let g = config_manager.graph_view();
                let ns = names.deep_view();
                &&& (forall|i: int| 0 <= i < ns.len() ==> g.has_node(#[trigger] ns[i]))
                &&& ordered_closure(g, ns, order.deep_view())
            },
            Err(e) => {
                let g = config_manager.graph_view();
                let ns = names.deep_view();
                match e {
                    DependencyError::ProfileNotFound(n) => ns.contains(n@) && !g.has_node(n@),
                    DependencyError::CircularDependency(p) => g.is_cycle(p.deep_view()) && exists|
                        i: int,
                    |
                        0 <= i < ns.len() && g.reaches(#[trigger] ns[i], p.deep_view().first()),
                    _ => false,
                }
            },
        },
{
    let ghost g = config_manager.graph_view();
    let ghost ns = names.deep_view();
    let mut order: Vec<String> = Vec::new();
    let nn = names.len();
    for i in 0..nn
        invariant
            g == config_manager.graph_view(),
            ns == names.deep_view(),
            config_manager.wf(),
            nn == ns.len(),
            forall|i2: int| 0 <= i2 < i ==> g.has_node(#[trigger] ns[i2]),
            order.deep_view().no_duplicates(),
            forall|p: int, q: int|
                0 <= p < order.deep_view().len() && 0 <= q < order.deep_view().len() && g.dep(
                    #[trigger] order.deep_view()[p],
                    #[trigger] order.deep_view()[q],
                ) ==> q < p,
            forall|x: Seq<char>|
                #[trigger] order.deep_view().contains(x) ==> (exists|i2: int|
                    0 <= i2 < i && g.reaches(#[trigger] ns[i2], x)),
            forall|i2: int, x: Seq<char>|
                0 <= i2 < i && #[trigger] g.reaches(ns[i2], x) ==> order.deep_view().contains(x),
    {
        let resolved = match config_manager.resolve_dependencies(names[i].as_str()) {
            Ok(v) => v,
            Err(e) => {
                proof {
                    assert(ns[i as int] == names@[i as int]@);
                    match &e {
                        DependencyError::ProfileNotFound(n) => {
                            assert(ns.contains(n@));
                        },
                        DependencyError::CircularDependency(p) => {
                            assert(g.reaches(ns[i as int], p.deep_view().first()));
                        },
                        _ => {},
                    }
                }
                return Err(e);
            },
        };
        let m = resolved.len();
        let ghost rdv = resolved.deep_view();
        proof {
            assert(ns[i as int] == names@[i as int]@);
        }
        for t in 0..m
            invariant
                g == config_manager.graph_view(),
                ns == names.deep_view(),
                nn == ns.len(),
                0 <= i < nn,
                m == rdv.len(),
                rdv == resolved.deep_view(),
                ns[i as int] == names@[i as int]@,
                forall|x: Seq<char>| rdv.contains(x) <==> g.reaches(ns[i as int], x),
                rdv.no_duplicates(),
                forall|a: int, b: int|
                    0 <= a < rdv.len() && 0 <= b < rdv.len() && g.dep(
                        #[trigger] rdv[a],
                        #[trigger] rdv[b],
                    ) ==> b < a,
                !(exists|c: Seq<Seq<char>>|
                    g.is_cycle(c) && g.reaches(ns[i as int], c.first())),
                order.deep_view().no_duplicates(),
                forall|p: int, q: int|
                    0 <= p < order.deep_view().len() && 0 <= q < order.deep_view().len()
                        && g.dep(
                        #[trigger] order.deep_view()[p],
                        #[trigger] order.deep_view()[q],
                    ) ==> q < p,
                forall|x: Seq<char>|
                    #[trigger] order.deep_view().contains(x) ==> ((exists|i2: int|
                        0 <= i2 < i && g.reaches(#[trigger] ns[i2], x)) || (exists|t2: int|
                        0 <= t2 < t && #[trigger] rdv[t2] == x)),
                forall|i2: int, x: Seq<char>|
                    0 <= i2 < i && #[trigger] g.reaches(ns[i2], x) ==> order.deep_view().contains(
                        x,
                    ),
                forall|t2: int|
                    0 <= t2 < t ==> order.deep_view().contains(#[trigger] rdv[t2]),
        {
            let ghost opre = order.deep_view();
            let present = name_list_contains(&order, resolved[t].as_str());
            if !present {
                order.push(resolved[t].clone());
            }
            proof {
                let x0 = rdv[t as int];
                assert(x0 == resolved@[t as int]@);
                if !present {
                    assert(order.deep_view() =~= opre.push(x0));
                    assert(order.deep_view()[opre.len() as int] == x0);
                    assert(order.deep_view().contains(x0));
                    assert forall|x: Seq<char>|
                        #[trigger] order.deep_view().contains(x) implies ((exists|i2: int|
                        0 <= i2 < i && g.reaches(#[trigger] ns[i2], x)) || (exists|t2: int|
                        0 <= t2 < t + 1 && #[trigger] rdv[t2] == x)) by {
                        if x != x0 {
                            let j = choose|j: int|
                                0 <= j < order.deep_view().len() && order.deep_view()[j] == x;
                            if j < opre.len() {
                                assert(opre.contains(x));
                            }
                        } else {
                            assert(rdv[t as int] == x0);
                        }
                    }
                    assert forall|a: int, b: int|
                        0 <= a < b < order.deep_view().len() implies order.deep_view()[a]
                        != order.deep_view()[b] by {
                        if b == order.deep_view().len() - 1 {
                            assert(order.deep_view()[a] == opre[a]);
                            if opre[a] == x0 {
                                assert(opre.contains(x0));
                            }
                        } else {
                            assert(order.deep_view()[a] == opre[a]);
                            assert(order.deep_view()[b] == opre[b]);
                        }
                    }
                    // no already-placed profile depends on the newcomer: it
                    // would have been placed first
                    assert forall|p: int, q: int|
                        0 <= p < order.deep_view().len() && 0 <= q < order.deep_view().len()
                            && g.dep(
                            #[trigger] order.deep_view()[p],
                            #[trigger] order.deep_view()[q],
                        ) implies q < p by {
                        let ll = opre.len() as int;
                        if p < ll && q < ll {
                            assert(order.deep_view()[p] == opre[p]);
                            assert(order.deep_view()[q] == opre[q]);
                        } else if q == ll {
                            let u = order.deep_view()[p];
                            assert(g.dep(u, x0));
                            g.lemma_dep_registered(u, x0);
                            assert(g.reaches(u, x0)) by {
                                let w = seq![u, x0];
                                assert(w[0] == u && w[1] == x0);
                                assert(g.is_path(w));
                                assert(w.first() == u && w.last() == x0);
                            }
                            if p == ll {
                                // a self-loop would be a cycle reachable
                                // from the current start
                                assert(u == x0);
                                assert(g.reaches(ns[i as int], x0)) by {
                                    assert(rdv[t as int] == x0);
                                    assert(rdv.contains(x0));
                                }
                                let w = seq![x0, x0];
                                assert(w[0] == x0 && w[1] == x0);
                                assert(g.is_path(w));
                                assert(g.is_cycle(w));
                                assert(g.reaches(ns[i as int], w.first()));
                                assert(false);
                            } else {
                                assert(u == opre[p]);
                                assert(opre.contains(u));
                                if exists|i2: int|
                                    0 <= i2 < i && g.reaches(#[trigger] ns[i2], u) {
                                    let i2 = choose|i2: int|
                                        0 <= i2 < i && g.reaches(#[trigger] ns[i2], u);
                                    g.lemma_reaches_trans(ns[i2], u, x0);
                                    assert(g.reaches(ns[i2], x0));
                                    assert(opre.contains(x0));
                                    assert(false);
                                } else {
                                    let t2 = choose|t2: int|
                                        0 <= t2 < t && #[trigger] rdv[t2] == u;
                                    assert(g.reaches(ns[i as int], u)) by {
                                        assert(rdv.contains(u));
                                    }
                                    g.lemma_reaches_trans(ns[i as int], u, x0);
                                    assert(g.reaches(ns[i as int], x0));
                                    assert(rdv.contains(x0));
                                    let px = choose|px: int|
                                        0 <= px < rdv.len() && rdv[px] == x0;
                                    assert(g.dep(rdv[t2], rdv[px]));
                                    assert(px < t2);
                                    assert(opre.contains(rdv[px]));
                                    assert(false);
                                }
                            }
                        }
                    }
                    assert forall|i2: int, x: Seq<char>|
                        0 <= i2 < i && #[trigger] g.reaches(ns[i2], x) implies order.deep_view()
                        .contains(x) by {
                        assert(opre.contains(x));
                        let j = choose|j: int| 0 <= j < opre.len() && opre[j] == x;
                        assert(order.deep_view()[j] == x);
                    }
                    assert forall|t2: int|
                        0 <= t2 < t + 1 implies order.deep_view().contains(
                        #[trigger] rdv[t2]) by {
                        if t2 < t {
                            assert(opre.contains(rdv[t2]));
                            let j = choose|j: int| 0 <= j < opre.len() && opre[j] == rdv[t2];
                            assert(order.deep_view()[j] == rdv[t2]);
                        }
                    }
                } else {
                    assert forall|t2: int|
                        0 <= t2 < t + 1 implies order.deep_view().contains(
                        #[trigger] rdv[t2]) by {}
                }
            }
        }
        proof {
            assert forall|i2: int, x: Seq<char>|
                0 <= i2 < i + 1 && #[trigger] g.reaches(ns[i2], x) implies order.deep_view()
                .contains(x) by {
                if i2 == i as int {
                    assert(rdv.contains(x));
                    let t2 = choose|t2: int| 0 <= t2 < rdv.len() && rdv[t2] == x;
                    assert(order.deep_view().contains(rdv[t2]));
                }
            }
            assert forall|x: Seq<char>|
                #[trigger] order.deep_view().contains(x) implies (exists|i2: int|
                0 <= i2 < i + 1 && g.reaches(#[trigger] ns[i2], x)) by {
                if exists|i2: int| 0 <= i2 < i && g.reaches(#[trigger] ns[i2], x) {
                } else {
                    let t2 = choose|t2: int| 0 <= t2 < m && #[trigger] rdv[t2] == x;
                    assert(rdv.contains(x));
                    assert(g.reaches(ns[i as int], x));
                }
            }
        }
    }
    Ok(order)
}

/// Merges the variables of every profile in the dependency closure of the
/// listed names, deepest dependencies first, so that a profile closer to
/// the activation root overwrites a deeper one for the same key.
#[verifier::rlimit(100)]
#[verifier::spinoff_prover]
pub fn collect(config_manager: &ConfigManager, names: &Vec<String>) -> (r: Result<
    Vec<(String, String)>,
    DependencyError,
>)
    requires
        config_manager.wf(),
        loaded_profiles_wf(config_manager.profiles_view()),
    ensures
        match r {
            Ok(vars) => {
                let m = vars.deep_view();
                let g = config_manager.graph_view();
                let ps = config_manager.profiles_view();
                let ns = names.deep_view();
                &&& assoc_keys(m).no_duplicates()
                &&& (forall|i: int| 0 <= i < ns.len() ==> g.has_node(#[trigger] ns[i]))
                &&& (forall|x: Seq<char>| in_closure(g, ns, x) ==> ps.contains_name(x))
                &&& (forall|k: Seq<char>, v: Seq<char>|
                    assoc_get(m, k) == Some(v) ==> exists|x: Seq<char>|
                        in_closure(g, ns, x) && #[trigger] defines_value(ps, x, k, v))
                &&& (forall|x: Seq<char>, k: Seq<char>|
                    in_closure(g, ns, x) && #[trigger] defines(ps, x, k) ==> assoc_get(
                        m,
                        k,
                    ) is Some)
                &&& (exists|ord: Seq<Seq<char>>|
                    #[trigger] ordered_closure(g, ns, ord) && (forall|k: Seq<char>|
                        assoc_get(m, k) == last_defined(ps, ord, k)))
            },
            Err(e) => {
                let g = config_manager.graph_view();
                let ps = config_manager.profiles_view();
                let ns = names.deep_view();
                match e {
                    DependencyError::ProfileNotFound(n) => (ns.contains(n@) && !g.has_node(n@))
                        || (in_closure(g, ns, n@) && !ps.contains_name(n@)),
                    DependencyError::CircularDependency(p) => g.is_cycle(p.deep_view()) && exists|
                        i: int,
                    |
                        0 <= i < ns.len() && g.reaches(#[trigger] ns[i], p.deep_view().first()),
                    _ => false,
                }
            },
        },
{
    let ghost g = config_manager.graph_view();
    let ghost ps = config_manager.profiles_view();
    let ghost ns = names.deep_view();
    let order = match closure_order(config_manager, names) {
        Ok(order) => order,
        Err(e) => {
            return Err(e);
        },
    };
    // the listed names themselves are in the order, by the trivial walk
    // from each to itself
    proof {
        assert forall|i: int| 0 <= i < ns.len() implies order.deep_view().contains(
            #[trigger] ns[i]) by {
            assert(g.has_node(ns[i]));
            let w = seq![ns[i]];
            assert(w.len() == 1 && w[0] == ns[i]);
            assert(g.is_path(w));
            assert(w.first() == ns[i] && w.last() == ns[i]);
            assert(g.reaches(ns[i], ns[i]));
        }
    }
    // merge, deepest first: a later profile overwrites an earlier one
    let mut acc = Profile::new();
    let on = order.len();
    let ghost odv = order.deep_view();
    for t in 0..on
        invariant
            g == config_manager.graph_view(),
            ps == config_manager.profiles_view(),
            ns == names.deep_view(),
            config_manager.wf(),
            loaded_profiles_wf(ps),
            on == odv.len(),
            odv == order.deep_view(),
            ordered_closure(g, ns, odv),
            forall|x: Seq<char>|
                #[trigger] odv.contains(x) ==> in_closure(g, ns, x),
            forall|x: Seq<char>| in_closure(g, ns, x) ==> odv.contains(x),
            acc.wf(),
            forall|k: Seq<char>|
                assoc_get(acc.vars(), k) == last_defined(ps, odv.take(t as int), k),
            forall|k: Seq<char>, v: Seq<char>|
                assoc_get(acc.vars(), k) == Some(v) ==> exists|x: Seq<char>|
                    in_closure(g, ns, x) && #[trigger] defines_value(ps, x, k, v),
            forall|t2: int, k: Seq<char>|
                0 <= t2 < t && #[trigger] defines(ps, odv[t2], k) ==> assoc_get(
                    acc.vars(),
                    k,
                ) is Some,
            forall|t2: int| 0 <= t2 < t ==> ps.contains_name(#[trigger] odv[t2]),
    {
        let p = match config_manager.read_profile(order[t].as_str()) {
            Some(p) => p,
            None => {
                proof {
                    assert(odv[t as int] == order@[t as int]@);
                    assert(odv.contains(odv[t as int]));
                    assert(in_closure(g, ns, odv[t as int]));
                }
                return Err(DependencyError::ProfileNotFound(order[t].clone()));
            },
        };
        proof {
            assert(odv[t as int] == order@[t as int]@);
            assert(odv.contains(odv[t as int]));
        }
        let ghost xnm = odv[t as int];
        let pv = p.variables.len();
        proof {
            assert(p.vars().take(0) =~= Seq::<(Seq<char>, Seq<char>)>::empty());
            assert forall|k: Seq<char>|
                assoc_get(acc.vars(), k) == (match assoc_get(p.vars().take(0), k) {
                    Some(v) => Some(v),
                    None => last_defined(ps, odv.take(t as int), k),
                }) by {}
        }
        for u in 0..pv
            invariant
                g == config_manager.graph_view(),
                ps == config_manager.profiles_view(),
                ns == names.deep_view(),
                0 <= t < on,
                on == odv.len(),
                xnm == odv[t as int],
                in_closure(g, ns, xnm),
                ps.lookup(xnm) == Some(*p),
                p.wf(),
                pv == p.vars().len(),
                acc.wf(),
                forall|k: Seq<char>, v: Seq<char>|
                    assoc_get(acc.vars(), k) == Some(v) ==> exists|x: Seq<char>|
                        in_closure(g, ns, x) && #[trigger] defines_value(ps, x, k, v),
                forall|t2: int, k: Seq<char>|
                    0 <= t2 < t && #[trigger] defines(ps, odv[t2], k) ==> assoc_get(
                        acc.vars(),
                        k,
                    ) is Some,
                forall|u2: int|
                    0 <= u2 < u ==> assoc_get(acc.vars(), (#[trigger] p.vars()[u2]).0) is Some,
                forall|k: Seq<char>|
                    assoc_get(acc.vars(), k) == (match assoc_get(
                        p.vars().take(u as int),
                        k,
                    ) {
                        Some(v) => Some(v),
                        None => last_defined(ps, odv.take(t as int), k),
                    }),
        {
            let ghost accpre = acc;
            proof {
                assert(p.vars()[u as int] == (p.variables@[u as int].0@, p.variables@[
                    u as int].1@));
            }
            acc.add_variable(p.variables[u].0.as_str(), p.variables[u].1.as_str());
            proof {
                let k0 = p.vars()[u as int].0;
                let v0 = p.vars()[u as int].1;
                crate::models::lemma_assoc_get_at(p.vars(), u as int);
                assert(defines_value(ps, xnm, k0, v0));
                assert forall|k: Seq<char>, v: Seq<char>|
                    assoc_get(acc.vars(), k) == Some(v) implies exists|x: Seq<char>|
                    in_closure(g, ns, x) && #[trigger] defines_value(ps, x, k, v) by {
                    if k != k0 {
                        assert(assoc_get(accpre.vars(), k) == Some(v));
                    }
                }
                // the first u+1 entries of the profile now sit on top of
                // the earlier profiles
                assert(p.vars().take(u + 1) =~= p.vars().take(u as int).push(
                    p.vars()[u as int],
                ));
                crate::models::lemma_assoc_get_push(p.vars().take(u as int), p.vars()[u as int]);
                assert(assoc_get(p.vars().take(u as int), k0) is None) by {
                    crate::models::lemma_assoc_get_none(p.vars().take(u as int), k0);
                    assert forall|j: int|
                        0 <= j < u implies (#[trigger] p.vars().take(u as int)[j]).0 != k0 by {
                        assert(p.vars().take(u as int)[j] == p.vars()[j]);
                        assert(assoc_keys(p.vars())[j] == p.vars()[j].0);
                        assert(assoc_keys(p.vars())[u as int] == k0);
                    }
                }
                assert forall|k: Seq<char>|
                    assoc_get(acc.vars(), k) == (match assoc_get(p.vars().take(u + 1), k) {
                        Some(v) => Some(v),
                        None => last_defined(ps, odv.take(t as int), k),
                    }) by {
                    if k == k0 {
                        assert(assoc_get(p.vars().take(u + 1), k) == Some(v0));
                        assert(assoc_get(acc.vars(), k0) == Some(v0));
                    } else {
                        assert(assoc_get(p.vars().take(u + 1), k) == assoc_get(
                            p.vars().take(u as int),
                            k,
                        ));
                        assert(assoc_get(acc.vars(), k) == assoc_get(accpre.vars(), k));
                    }
                }
            }
        }
        proof {
            assert forall|t2: int, k: Seq<char>|
                0 <= t2 < t + 1 && #[trigger] defines(ps, odv[t2], k) implies assoc_get(
                acc.vars(),
                k,
            ) is Some by {
                if t2 == t as int {
                    crate::models::lemma_assoc_get_none(p.vars(), k);
                    let u2 = choose|u2: int| 0 <= u2 < p.vars().len() && p.vars()[u2].0 == k;
                    assert(assoc_get(acc.vars(), (p.vars()[u2]).0) is Some);
                }
            }
            assert(p.vars().take(pv as int) =~= p.vars());
            assert(odv.take(t + 1).last() == odv[t as int]);
            assert(odv.take(t + 1).drop_last() =~= odv.take(t as int));
            assert forall|k: Seq<char>|
                assoc_get(acc.vars(), k) == last_defined(ps, odv.take(t + 1), k) by {
                assert(assoc_get(acc.vars(), k) == (match assoc_get(p.vars(), k) {
                    Some(v) => Some(v),
                    None => last_defined(ps, odv.take(t as int), k),
                }));
            }
        }
    }
    proof {
        assert forall|x: Seq<char>, k: Seq<char>|
            in_closure(g, ns, x) && #[trigger] defines(ps, x, k) implies assoc_get(
            acc.vars(),
            k,
        ) is Some by {
            assert(odv.contains(x));
            let t2 = choose|t2: int| 0 <= t2 < odv.len() && odv[t2] == x;
            assert(defines(ps, odv[t2], k));
        }
        assert forall|x: Seq<char>| in_closure(g, ns, x) implies ps.contains_name(x) by {
            assert(odv.contains(x));
            let t2 = choose|t2: int| 0 <= t2 < odv.len() && odv[t2] == x;
            assert(ps.contains_name(odv[t2]));
        }
        assert(odv.take(on as int) =~= odv);
        assert(ordered_closure(g, ns, odv) && (forall|k: Seq<char>|
            assoc_get(acc.vars(), k) == last_defined(ps, odv, k)));
    }
    Ok(acc.variables)
}

impl Profile {
    /// The effective variables of this profile: everything inherited
    /// through its declared dependencies, merged in activation order, with
    /// the profile's own variables layered last so they always win.
    #[verifier::rlimit(100)]
    #[verifier::spinoff_prover]
    pub fn collect_vars(&self, config_manager: &ConfigManager) -> (r: Result<
        Vec<(String, String)>,
        DependencyError,
    >)
        requires
            config_manager.wf(),
            loaded_profiles_wf(config_manager.profiles_view()),
            self.wf(),
        ensures
            match r {
                Ok(vars) => {
                    let m = vars.deep_view();
                    &&& assoc_keys(m).no_duplicates()
                    &&& (forall|i: int|
                        0 <= i < self.deps().len() ==> config_manager.graph_view().has_node(
                            #[trigger] self.deps()[i],
                        ))
                    &&& (forall|x: Seq<char>|
                        in_closure(config_manager.graph_view(), self.deps(), x)
                            ==> config_manager.profiles_view().contains_name(x))
                    &&& (forall|k: Seq<char>|
                        assoc_get(self.vars(), k) is Some ==> assoc_get(m, k) == assoc_get(
                            self.vars(),
                            k,
                        ))
                    &&& (forall|k: Seq<char>, v: Seq<char>|
                        assoc_get(m, k) == Some(v) && assoc_get(self.vars(), k) is None
                            ==> exists|x: Seq<char>|
                            in_closure(
                                config_manager.graph_view(),
                                self.deps(),
                                x,
                            ) && #[trigger] defines_value(
                                config_manager.profiles_view(),
                                x,
                                k,
                                v,
                            ))
                    &&& (exists|ord: Seq<Seq<char>>|
                        #[trigger] ordered_closure(
                            config_manager.graph_view(),
                            self.deps(),
                            ord,
                        ) && (forall|k: Seq<char>|
                            assoc_get(m, k) == (match assoc_get(self.vars(), k) {
                                Some(v) => Some(v),
                                None => last_defined(config_manager.profiles_view(), ord, k),
                            })))
                },
                Err(e) => {
                    let g = config_manager.graph_view();
                    let ps = config_manager.profiles_view();
                    match e {
                        DependencyError::ProfileNotFound(n) => (self.deps().contains(n@)
                            && !g.has_node(n@)) || (in_closure(g, self.deps(), n@)
                            && !ps.contains_name(n@)),
                        DependencyError::CircularDependency(p) => g.is_cycle(p.deep_view())
                            && exists|i: int|
                            0 <= i < self.deps().len() && g.reaches(
                                #[trigger] self.deps()[i],
                                p.deep_view().first(),
                            ),
                        _ => false,
                    }
                },
            },
    {
        let base = match collect(config_manager, &self.profiles) {
            Ok(v) => v,
            Err(e) => {
                return Err(e);
            },
        };
        let mut acc = Profile { variables: base, profiles: Vec::new() };
        let ghost acc0 = acc;
        let nv = self.variables.len();
        for u in 0..nv
            invariant
                self.wf(),
                nv == self.vars().len(),
                acc.wf(),
                forall|k: Seq<char>, v: Seq<char>|
                    assoc_get(acc.vars(), k) == Some(v) ==> (assoc_get(acc0.vars(), k) == Some(
                        v,
                    ) || assoc_get(self.vars(), k) == Some(v)),
                forall|u2: int|
                    0 <= u2 < u ==> assoc_get(acc.vars(), (#[trigger] self.vars()[u2]).0)
                        == Some(self.vars()[u2].1),
                forall|k: Seq<char>|
                    (forall|u2: int| 0 <= u2 < nv ==> (#[trigger] self.vars()[u2]).0 != k)
                        ==> assoc_get(acc.vars(), k) == assoc_get(acc0.vars(), k),
        {
            let ghost accpre = acc;
            proof {
                assert(self.vars()[u as int] == (self.variables@[u as int].0@, self.variables@[
                    u as int].1@));
            }
            acc.add_variable(self.variables[u].0.as_str(), self.variables[u].1.as_str());
            proof {
                let k0 = self.vars()[u as int].0;
                let v0 = self.vars()[u as int].1;
                crate::models::lemma_assoc_get_at(self.vars(), u as int);
                assert forall|u2: int|
                    0 <= u2 < u + 1 implies assoc_get(acc.vars(), (#[trigger] self.vars()[u2]).0)
                    == Some(self.vars()[u2].1) by {
                    if u2 < u {
                        if self.vars()[u2].0 == k0 {
                            assert(assoc_keys(self.vars())[u2] == self.vars()[u2].0);
                            assert(assoc_keys(self.vars())[u as int] == k0);
                        } else {
                            assert(assoc_get(accpre.vars(), self.vars()[u2].0) == Some(
                                self.vars()[u2].1,
                            ));
                        }
                    }
                }
            }
        }
        proof {
            assert forall|k: Seq<char>|
                assoc_get(self.vars(), k) is Some implies assoc_get(acc.vars(), k) == assoc_get(
                self.vars(),
                k,
            ) by {
                crate::models::lemma_assoc_get_none(self.vars(), k);
                let u2 = choose|u2: int| 0 <= u2 < self.vars().len() && self.vars()[u2].0 == k;
                crate::models::lemma_assoc_get_at(self.vars(), u2);
                assert(assoc_get(acc.vars(), (self.vars()[u2]).0) == Some(self.vars()[u2].1));
            }
            assert forall|k: Seq<char>, v: Seq<char>|
                assoc_get(acc.vars(), k) == Some(v) && assoc_get(self.vars(), k) is None implies
                exists|x: Seq<char>|
                in_closure(config_manager.graph_view(), self.deps(), x)
                    && #[trigger] defines_value(config_manager.profiles_view(), x, k, v) by {
                crate::models::lemma_assoc_get_none(self.vars(), k);
                assert(assoc_get(acc0.vars(), k) == Some(v));
            }
            // the inherited layer is the merge along some linearization of
            // the closure; the profile's own variables sit on top of it
            let g = config_manager.graph_view();
            let ps = config_manager.profiles_view();
            let ord = choose|ord: Seq<Seq<char>>|
                #[trigger] ordered_closure(g, self.deps(), ord) && (forall|k: Seq<char>|
                    assoc_get(acc0.vars(), k) == last_defined(ps, ord, k));
            assert forall|k: Seq<char>|
                assoc_get(acc.vars(), k) == (match assoc_get(self.vars(), k) {
                    Some(v) => Some(v),
                    None => last_defined(ps, ord, k),
                }) by {
                if assoc_get(self.vars(), k) is None {
                    crate::models::lemma_assoc_get_none(self.vars(), k);
                    assert(assoc_get(acc.vars(), k) == assoc_get(acc0.vars(), k));
                }
            }
            assert(ordered_closure(g, self.deps(), ord));
        }
        Ok(acc.variables)
    }
}

} // verus!
