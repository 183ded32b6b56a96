//! The dependency graph over profile names.
//!
//! Nodes live in an arena: a dense table of names with liveness flags and
//! adjacency lists by index.  A directed edge (parent, dependency) means
//! "parent needs the dependency's variables".  Structural mutations keep the
//! graph acyclic: an edge whose insertion would close a loop is rejected and
//! the offending cycle is reported.

use vstd::prelude::*;

use crate::models::str_eq;
use crate::models::ProfileSet;
use crate::models::lemma_assoc_get_none;
use crate::models::lemma_assoc_get_at_found;
use crate::models::assoc_keys;

verus! {

/// The errors the dependency engine reports.
#[derive(Debug)]
pub enum DependencyError {
    /// An ordered cycle path, first and last entries equal.
    CircularDependency(Vec<String>),
    /// A profile references a dependency that does not exist:
    /// (parent profile, missing dependency).
    DependencyNotFound(String, String),
    /// The profile itself does not exist.
    ProfileNotFound(String),
    /// An unreadable record at the storage boundary: (profile, cause).
    ProfileIoError(String, String),
    /// An unparsable record at the storage boundary: (profile, cause).
    ProfileParseError(String, String),
    /// Context wrapper for errors met while loading a dependency.
    DependencyChain { profile: String, cause: Box<DependencyError> },
    /// Several independent errors from sibling branches of one load.
    MultipleErrors(Vec<DependencyError>),
}

/// How many entries of a boolean sequence are still false.
spec fn count_false(s: Seq<bool>) -> int
    decreases s.len(),
{
    if s.len() == 0 {
        0
    } else {
        count_false(s.drop_last()) + if s.last() {
            0int
        } else {
            1int
        }
    }
}

proof fn lemma_count_false_bounds(s: Seq<bool>)
    ensures
        0 <= count_false(s) <= s.len(),
    decreases s.len(),
{
    if s.len() > 0 {
        lemma_count_false_bounds(s.drop_last());
    }
}

proof fn lemma_count_false_push(s: Seq<bool>)
    requires
        s.len() > 0,
        !s.last(),
    ensures
        count_false(s) == count_false(s.drop_last()) + 1,
{
}

proof fn lemma_count_false_update(s: Seq<bool>, j: int)
    requires
        0 <= j < s.len(),
        !s[j],
    ensures
        count_false(s.update(j, true)) == count_false(s) - 1,
    decreases s.len(),
{
    let s2 = s.update(j, true);
    if j == s.len() - 1 {
        assert(s2.drop_last() =~= s.drop_last());
        assert(s2.last());
        assert(!s.last());
    } else {
        assert(s2.drop_last() =~= s.drop_last().update(j, true));
        lemma_count_false_update(s.drop_last(), j);
        assert(s2.last() == s.last());
    }
}

/// Distinct slot numbers below a bound cannot outnumber the bound.
proof fn lemma_distinct_bounded(s: Seq<usize>, n: int)
    requires
        s.no_duplicates(),
        forall|k: int| 0 <= k < s.len() ==> (#[trigger] s[k] as int) < n,
        0 <= n,
    ensures
        s.len() <= n,
    decreases n,
{
    if s.len() > 0 {
        assert((s[0] as int) < n);
        assert(n >= 1);
        if exists|k: int| 0 <= k < s.len() && (#[trigger] s[k] as int) == n - 1 {
            let k = choose|k: int| 0 <= k < s.len() && (#[trigger] s[k] as int) == n - 1;
            let s2 = s.remove(k);
            assert forall|a: int, b: int| 0 <= a < b < s2.len() implies s2[a] != s2[b] by {
                let a1 = if a < k {
                    a
                } else {
                    a + 1
                };
                let b1 = if b < k {
                    b
                } else {
                    b + 1
                };
                assert(s2[a] == s[a1] && s2[b] == s[b1]);
            }
            assert forall|t: int| 0 <= t < s2.len() implies (#[trigger] s2[t] as int) < n - 1 by {
                let t1 = if t < k {
                    t
                } else {
                    t + 1
                };
                assert(s2[t] == s[t1]);
                if s[t1] as int == n - 1 {
                    assert(s[t1] == s[k]);
                }
            }
            lemma_distinct_bounded(s2, n - 1);
        } else {
            assert forall|k: int| 0 <= k < s.len() implies (#[trigger] s[k] as int) < n - 1 by {}
            lemma_distinct_bounded(s, n - 1);
        }
    }
}

/// Finds the position of `x` in a stack of slot numbers.
fn find_pos(v: &Vec<usize>, x: usize) -> (r: Option<usize>)
    ensures
        match r {
            Some(p) => (p as int) < v@.len() && v@[p as int] == x,
            None => forall|k: int| 0 <= k < v@.len() ==> (#[trigger] v@[k]) != x,
        },
{
    let m = v.len();
    for k in 0..m
        invariant
            m == v@.len(),
            forall|t: int| 0 <= t < k ==> (#[trigger] v@[t]) != x,
    {
        if v[k] == x {
            return Some(k);
        }
    }
    None
}

/// The position of `x` in `out`; meaningful when `out` holds `x` once.
spec fn pos_in(out: Seq<Seq<char>>, x: Seq<char>) -> int {
    choose|k: int| 0 <= k < out.len() && out[k] == x
}

/// Stop `k` of the walk `p` appears in the output `out`.
spec fn out_contains_cycle_stop(out: Seq<Seq<char>>, p: Seq<Seq<char>>, k: int) -> bool {
    out.contains(p[k])
}

/// The source a relabeled name stood for: the new name maps back to the
/// old one, every other name to itself.
pub open spec fn rename_src(x: Seq<char>, new_nm: Seq<char>, old_nm: Seq<char>) -> Seq<char> {
    if x == new_nm {
        old_nm
    } else {
        x
    }
}

/// Some entry of an adjacency list names slot `j`.
spec fn row_has(row: Seq<usize>, j: int) -> bool {
    exists|k: int| 0 <= k < row.len() && (#[trigger] row[k] as int) == j
}

/// Some entry among the first `k` of an adjacency list names slot `j`.
spec fn row_has_upto(row: Seq<usize>, k: int, j: int) -> bool {
    exists|q: int| 0 <= q < k && (#[trigger] row[q] as int) == j
}

/// The profile stored under `x` declares `y` among its dependencies.
pub open spec fn declares(ps: ProfileSet, x: Seq<char>, y: Seq<char>) -> bool {
    match ps.lookup(x) {
        Some(p) => p.deps().contains(y),
        None => false,
    }
}

/// A declared dependency whose target is itself stored.
pub open spec fn declared_dep(ps: ProfileSet, x: Seq<char>, y: Seq<char>) -> bool {
    declares(ps, x, y) && ps.contains_name(y)
}

/// Every declared reference tried before position (k, dd) — earlier
/// entries wholly, the same entry up to dd — has its target stored.
pub open spec fn no_earlier_missing_ref(ps: ProfileSet, k: int, dd: int) -> bool {
    forall|k2: int, d2: int|
        0 <= k2 < ps.view_entries().len() && 0 <= d2 < ps.view_entries()[k2].1.deps().len() && (
        k2 < k || (k2 == k && d2 < dd)) ==> ps.contains_name(
            #[trigger] ps.view_entries()[k2].1.deps()[d2],
        )
}

/// The reference (a, b) stands at the first position, in entry order and
/// then declaration order, whose target is unstored.
pub open spec fn first_missing_ref(ps: ProfileSet, a: Seq<char>, b: Seq<char>) -> bool {
    exists|k: int, dd: int|
        0 <= k < ps.view_entries().len() && 0 <= dd < ps.view_entries()[k].1.deps().len()
            && ps.view_entries()[k].0 == a && (#[trigger] ps.view_entries()[k].1.deps()[dd]) == b
            && no_earlier_missing_ref(ps, k, dd)
}

/// One of the listed pairs, among the first `t`, is exactly (x, y).
pub open spec fn pair_listed_upto(
    es: Seq<(Seq<char>, Seq<char>)>,
    t: int,
    x: Seq<char>,
    y: Seq<char>,
) -> bool {
    exists|k: int| 0 <= k < t && #[trigger] es[k] == (x, y)
}

/// The in-memory dependency graph: an arena of named nodes and directed
/// edges (parent, dependency) held as adjacency lists by index.
pub struct ProfileGraph {
    names: Vec<String>,
    alive: Vec<bool>,
    adj: Vec<Vec<usize>>,
}

impl ProfileGraph {
    /// Size of the arena, dead slots included.
    pub closed spec fn n(self) -> int {
        self.names.len() as int
    }

    /// Slot `i` holds a live node.
    pub closed spec fn is_node(self, i: int) -> bool {
        0 <= i < self.alive.len() && self.alive@[i]
    }

    /// The name in slot `i`.
    pub closed spec fn name_of(self, i: int) -> Seq<char> {
        self.names@[i]@
    }

    /// There is a directed edge from slot `i` to slot `j`.
    pub closed spec fn edge_i(self, i: int, j: int) -> bool {
        &&& self.is_node(i)
        &&& 0 <= i < self.adj.len()
        &&& exists|k: int| 0 <= k < self.adj@[i]@.len() && self.adj@[i]@[k] as int == j
    }

    /// The arena is well formed: tables of equal length, live names
    /// distinct, adjacency lists of live targets without duplicates, dead
    /// slots without edges.
    pub closed spec fn wf(self) -> bool {
        &&& self.alive.len() == self.names.len()
        &&& self.adj.len() == self.names.len()
        &&& (forall|i: int, j: int|
            0 <= i < j < self.n() && self.alive@[i] && self.alive@[j] ==> self.name_of(i)
                != self.name_of(j))
        &&& (forall|i: int|
            0 <= i < self.n() && !self.alive@[i] ==> self.adj@[i]@.len() == 0)
        &&& (forall|i: int, k: int|
            0 <= i < self.n() && 0 <= k < self.adj@[i]@.len() ==> self.is_node(
                #[trigger] self.adj@[i]@[k] as int,
            ))
        &&& (forall|i: int| 0 <= i < self.n() ==> (#[trigger] self.adj@[i]@).no_duplicates())
    }

    /// A node with this name is registered.
    pub closed spec fn has_node(self, nm: Seq<char>) -> bool {
        exists|i: int| self.is_node(i) && self.name_of(i) == nm
    }

    /// The profile named `p` declares a direct dependency on the profile
    /// named `c`.
    pub closed spec fn dep(self, p: Seq<char>, c: Seq<char>) -> bool {
        exists|i: int, j: int|
            {
                &&& self.is_node(i)
                &&& self.is_node(j)
                &&& self.name_of(i) == p
                &&& self.name_of(j) == c
                &&& #[trigger] self.edge_i(i, j)
            }
    }

    /// A walk through the graph: a nonempty sequence of registered names,
    /// each consecutive pair joined by an edge.
    pub open spec fn is_path(self, p: Seq<Seq<char>>) -> bool {
        &&& p.len() >= 1
        &&& (forall|k: int| 0 <= k < p.len() ==> self.has_node(#[trigger] p[k]))
        &&& (forall|k: int| 0 <= k < p.len() - 1 ==> self.dep(#[trigger] p[k], p[k + 1]))
    }

    /// Some walk leads from `a` to `b`; every registered name reaches
    /// itself by the trivial walk.
    pub open spec fn reaches(self, a: Seq<char>, b: Seq<char>) -> bool {
        exists|p: Seq<Seq<char>>| self.is_path(p) && p.first() == a && p.last() == b
    }

    /// Some walk of at least one edge leads from `a` to `b`.
    pub open spec fn reaches_plus(self, a: Seq<char>, b: Seq<char>) -> bool {
        exists|p: Seq<Seq<char>>|
            self.is_path(p) && p.len() >= 2 && p.first() == a && p.last() == b
    }

    /// A closed walk of at least one edge.
    pub open spec fn is_cycle(self, p: Seq<Seq<char>>) -> bool {
        self.is_path(p) && p.len() >= 2 && p.first() == p.last()
    }

    /// No closed walk exists anywhere in the graph.
    pub open spec fn acyclic(self) -> bool {
        !exists|p: Seq<Seq<char>>| self.is_cycle(p)
    }

    /// A walk at the slot level.
    spec fn is_ipath(self, p: Seq<int>) -> bool {
        &&& p.len() >= 1
        &&& (forall|k: int| 0 <= k < p.len() ==> self.is_node(#[trigger] p[k]))
        &&& (forall|k: int| 0 <= k < p.len() - 1 ==> self.edge_i(#[trigger] p[k], p[k + 1]))
    }

    /// Some slot-level walk leads from `a` to `b`.
    spec fn reach_i(self, a: int, b: int) -> bool {
        exists|p: Seq<int>| self.is_ipath(p) && p.first() == a && p.last() == b
    }

    proof fn lemma_reach_i_refl(self, a: int)
        requires
            self.is_node(a),
        ensures
            self.reach_i(a, a),
    {
        let p = seq![a];
        assert(self.is_ipath(p));
        assert(p.first() == a && p.last() == a);
    }

    proof fn lemma_reach_i_step(self, a: int, b: int, c: int)
        requires
            self.reach_i(a, b),
            self.edge_i(b, c),
            self.is_node(c),
        ensures
            self.reach_i(a, c),
    {
        let p = choose|p: Seq<int>| self.is_ipath(p) && p.first() == a && p.last() == b;
        let q = p.push(c);
        assert forall|k: int| 0 <= k < q.len() implies self.is_node(#[trigger] q[k]) by {
            if k < p.len() {
                assert(q[k] == p[k]);
            }
        }
        assert forall|k: int| 0 <= k < q.len() - 1 implies self.edge_i(
            #[trigger] q[k],
            q[k + 1],
        ) by {
            if k < p.len() - 1 {
                assert(q[k] == p[k] && q[k + 1] == p[k + 1]);
            } else {
                assert(q[k] == p.last() && q[k + 1] == c);
            }
        }
        assert(self.is_ipath(q) && q.first() == a && q.last() == c);
    }

    /// A set closed under edges absorbs every walk that starts inside it.
    proof fn lemma_closed_absorbs(self, s: Set<int>, p: Seq<int>)
        requires
            self.is_ipath(p),
            s.contains(p.first()),
            forall|i: int, j: int| s.contains(i) && self.edge_i(i, j) ==> s.contains(j),
        ensures
            s.contains(p.last()),
        decreases p.len(),
    {
        if p.len() > 1 {
            let q = p.drop_last();
            assert(q.first() == p.first());
            assert forall|k: int| 0 <= k < q.len() implies self.is_node(#[trigger] q[k]) by {
                assert(q[k] == p[k]);
            }
            assert forall|k: int| 0 <= k < q.len() - 1 implies self.edge_i(
                #[trigger] q[k],
                q[k + 1],
            ) by {
                assert(q[k] == p[k] && q[k + 1] == p[k + 1]);
            }
            self.lemma_closed_absorbs(s, q);
            assert(q.last() == p[p.len() - 2]);
            assert(self.edge_i(p[p.len() - 2], p[p.len() - 1]));
        }
    }

    /// A set closed under edges contains everything reachable from any of
    /// its members.
    proof fn lemma_closed_reach(self, s: Set<int>, a: int, b: int)
        requires
            self.reach_i(a, b),
            s.contains(a),
            forall|i: int, j: int| s.contains(i) && self.edge_i(i, j) ==> s.contains(j),
        ensures
            s.contains(b),
    {
        let p = choose|p: Seq<int>| self.is_ipath(p) && p.first() == a && p.last() == b;
        self.lemma_closed_absorbs(s, p);
        assert(p[p.len() - 1] == b);
    }

    /// What a finished search from `start` guarantees: exactly the slots
    /// reachable from `start` are marked, and every marked slot other than
    /// `start` has a marked parent one edge back with a smaller rank.
    spec fn search_ok(self, start: int, visited: Seq<bool>, parent: Seq<usize>, rank: Seq<usize>) -> bool {
        &&& visited.len() == self.n()
        &&& parent.len() == self.n()
        &&& rank.len() == self.n()
        &&& 0 <= start < self.n() && visited[start]
        &&& (forall|j: int| 0 <= j < self.n() && #[trigger] visited[j] ==> self.is_node(j))
        &&& (forall|j: int|
            0 <= j < self.n() && #[trigger] visited[j] ==> self.reach_i(start, j))
        &&& (forall|j: int|
            0 <= j < self.n() && #[trigger] visited[j] && j != start ==> {
                &&& self.is_node(parent[j] as int)
                &&& visited[parent[j] as int]
                &&& self.edge_i(parent[j] as int, j)
                &&& rank[parent[j] as int] < rank[j]
            })
        &&& (forall|j: int| self.is_node(j) && self.reach_i(start, j) ==> visited[j])
    }

    /// Marks every slot reachable from `start`; returns the marks, the
    /// search-tree parents, and discovery ranks.
    fn search_from(&self, start: usize) -> (r: (Vec<bool>, Vec<usize>, Vec<usize>))
        requires
            self.wf(),
            self.is_node(start as int),
        ensures
            self.search_ok(start as int, r.0@, r.1@, r.2@),
    {
        let n = self.names.len();
        let mut visited: Vec<bool> = Vec::new();
        let mut parent: Vec<usize> = Vec::new();
        let mut rank: Vec<usize> = Vec::new();
        for t in 0..n
            invariant
                visited.len() == t,
                parent.len() == t,
                rank.len() == t,
                forall|j: int| 0 <= j < t ==> !(#[trigger] visited@[j]),
                forall|j: int| 0 <= j < t ==> (#[trigger] rank@[j]) == 0,
                count_false(visited@) == t,
        {
            let ghost v0 = visited@;
            visited.push(false);
            parent.push(0);
            rank.push(0);
            proof {
                assert(visited@.drop_last() =~= v0);
                lemma_count_false_push(visited@);
            }
        }
        let ghost st = start as int;
        let ghost v1 = visited@;
        proof {
            lemma_count_false_update(visited@, st);
        }
        visited.set(start, true);
        let mut next_rank: usize = 1;
        let mut stack: Vec<usize> = Vec::new();
        stack.push(start);
        proof {
            self.lemma_reach_i_refl(st);
            assert(visited@ == v1.update(st, true));
            assert(visited@[st]);
            assert forall|j: int| 0 <= j < n && j != st implies !(#[trigger] visited@[j]) by {
                assert(visited@[j] == v1[j]);
            }
            assert(stack@[0] == start);
            assert(stack@.contains(start));
            assert(rank@[st] == 0);
        }
        while stack.len() > 0
            invariant
                self.wf(),
                self.is_node(st),
                0 <= st < self.n(),
                n == self.names.len(),
                visited.len() == n,
                parent.len() == n,
                rank.len() == n,
                visited@[st],
                next_rank == n - count_false(visited@),
                next_rank <= n,
                forall|j: int| 0 <= j < n && #[trigger] visited@[j] ==> self.is_node(j),
                forall|j: int| 0 <= j < n && #[trigger] visited@[j] ==> self.reach_i(st, j),
                forall|j: int|
                    0 <= j < n && #[trigger] visited@[j] && j != st ==> {
                        &&& self.is_node(parent@[j] as int)
                        &&& visited@[parent@[j] as int]
                        &&& self.edge_i(parent@[j] as int, j)
                        &&& rank@[parent@[j] as int] < rank@[j]
                    },
                forall|j: int| 0 <= j < n && #[trigger] visited@[j] ==> rank@[j] < next_rank,
                forall|k: int|
                    0 <= k < stack@.len() ==> (#[trigger] stack@[k] as int) < n
                        && visited@[stack@[k] as int],
                stack@.no_duplicates(),
                forall|j: int, c: int|
                    0 <= j < n && #[trigger] visited@[j] && !stack@.contains(j as usize)
                        && #[trigger] self.edge_i(j, c) ==> 0 <= c < n && visited@[c],
            decreases count_false(visited@), stack.len(),
    {
            let ghost cfs = count_false(visited@);
            let ghost stk0 = stack@;
            let i = stack.pop().unwrap();
            let ghost s0 = stack@.len();
            proof {
                assert(stack@ == stk0.drop_last());
                assert(i == stk0.last());
                assert forall|k: int| 0 <= k < stack@.len() implies (#[trigger] stack@[k] as int)
                    < n && visited@[stack@[k] as int] by {
                    assert(stack@[k] == stk0[k]);
                }
                assert forall|a: int, b: int| 0 <= a < b < stack@.len() implies stack@[a]
                    != stack@[b] by {
                    assert(stack@[a] == stk0[a] && stack@[b] == stk0[b]);
                }
                assert forall|j: int|
                    0 <= j < n && j != i as int && !stack@.contains(#[trigger] (j as usize)) implies !stk0.contains(
                    j as usize) by {
                    if stk0.contains(j as usize) {
                        let k = choose|k: int| 0 <= k < stk0.len() && stk0[k] == j as usize;
                        if k < stk0.len() - 1 {
                            assert(stack@[k] == j as usize);
                        } else {
                            assert(i == j as usize);
                        }
                    }
                }
            }
            let deg = self.adj[i].len();
            let ghost ii = i as int;
            for t in 0..deg
                invariant
                    self.wf(),
                    self.is_node(st),
                    0 <= st < self.n(),
                    self.is_node(ii),
                    ii == i as int,
                    0 <= ii < self.adj.len(),
                    deg == self.adj@[ii]@.len(),
                    n == self.names.len(),
                    visited.len() == n,
                    parent.len() == n,
                    rank.len() == n,
                    visited@[st],
                    visited@[ii],
                    self.reach_i(st, ii),
                    next_rank == n - count_false(visited@),
                    next_rank <= n,
                    count_false(visited@) + stack@.len() == cfs + s0,
                    count_false(visited@) <= cfs,
                    forall|j: int| 0 <= j < n && #[trigger] visited@[j] ==> self.is_node(j),
                    forall|j: int| 0 <= j < n && #[trigger] visited@[j] ==> self.reach_i(st, j),
                    forall|j: int|
                        0 <= j < n && #[trigger] visited@[j] && j != st ==> {
                            &&& self.is_node(parent@[j] as int)
                            &&& visited@[parent@[j] as int]
                            &&& self.edge_i(parent@[j] as int, j)
                            &&& rank@[parent@[j] as int] < rank@[j]
                        },
                    forall|j: int| 0 <= j < n && #[trigger] visited@[j] ==> rank@[j] < next_rank,
                    forall|k: int|
                        0 <= k < stack@.len() ==> (#[trigger] stack@[k] as int) < n
                            && visited@[stack@[k] as int],
                    stack@.no_duplicates(),
                    forall|k: int|
                        0 <= k < t ==> 0 <= (#[trigger] self.adj@[ii]@[k] as int) < n && visited@[
                            self.adj@[ii]@[k] as int],
                    forall|j: int, c: int|
                        0 <= j < n && j != ii && #[trigger] visited@[j] && !stack@.contains(
                            j as usize,
                        ) && #[trigger] self.edge_i(j, c) ==> 0 <= c < n && visited@[c],
            {
                let j = self.adj[i][t];
                proof {
                    assert(self.edge_i(ii, j as int));
                    assert(self.is_node(j as int));
                }
                if !visited[j] {
                    proof {
                        lemma_count_false_update(visited@, j as int);
                        lemma_count_false_bounds(visited@.update(j as int, true));
                        self.lemma_reach_i_step(st, ii, j as int);
                        assert forall|jj: int|
                            0 <= jj < n && #[trigger] visited@[jj] && jj != st implies parent@[jj]
                            as int != j as int by {
                            assert(visited@[parent@[jj] as int]);
                        }
                    }
                    let ghost vpre = visited@;
                    let ghost spre = stack@;
                    visited.set(j, true);
                    parent.set(j, i);
                    rank.set(j, next_rank);
                    next_rank = next_rank + 1;
                    stack.push(j);
                    proof {
                        lemma_count_false_bounds(visited@);
                        assert(stack@ == spre.push(j));
                        assert(stack@[stack@.len() - 1] == j);
                        assert(stack@.contains(j));
                        assert forall|j2: int, c: int|
                            0 <= j2 < n && j2 != ii && #[trigger] visited@[j2]
                                && !stack@.contains(j2 as usize) && #[trigger] self.edge_i(
                                j2,
                                c,
                            ) implies 0 <= c < n && visited@[c] by {
                            assert(j2 != j as int);
                            assert(vpre[j2]);
                            if spre.contains(j2 as usize) {
                                let k = choose|k: int|
                                    0 <= k < spre.len() && spre[k] == j2 as usize;
                                assert(stack@[k] == j2 as usize);
                            }
                            assert(!spre.contains(j2 as usize));
                            assert(vpre[c]);
                        }
                    }
                }
            }
        }
        proof {
            let s = Set::new(|j: int| 0 <= j < self.n() && visited@[j]);
            assert forall|i2: int, j2: int| s.contains(i2) && self.edge_i(i2, j2) implies s.contains(
                j2,
            ) by {
                assert(visited@[i2]);
                assert(!stack@.contains(i2 as usize));
            }
            assert(s.contains(st));
            assert forall|j: int| self.is_node(j) && self.reach_i(st, j) implies visited@[j] by {
                self.lemma_closed_reach(s, st, j);
            }
        }
        (visited, parent, rank)
    }

    /// No slot-level closed walk exists.
    spec fn acyclic_i(self) -> bool {
        !exists|p: Seq<int>| self.is_ipath(p) && p.len() >= 2 && p.first() == p.last()
    }

    /// Walks concatenate.
    proof fn lemma_reach_i_trans(self, a: int, b: int, c: int)
        requires
            self.reach_i(a, b),
            self.reach_i(b, c),
        ensures
            self.reach_i(a, c),
    {
        let p = choose|p: Seq<int>| self.is_ipath(p) && p.first() == a && p.last() == b;
        let q = choose|q: Seq<int>| self.is_ipath(q) && q.first() == b && q.last() == c;
        let r = p + q.drop_first();
        assert forall|k: int| 0 <= k < r.len() implies self.is_node(#[trigger] r[k]) by {
            if k < p.len() {
                assert(r[k] == p[k]);
            } else {
                assert(r[k] == q[k - p.len() + 1]);
            }
        }
        assert forall|k: int| 0 <= k < r.len() - 1 implies self.edge_i(
            #[trigger] r[k],
            r[k + 1],
        ) by {
            if k < p.len() - 1 {
                assert(r[k] == p[k] && r[k + 1] == p[k + 1]);
            } else if k == p.len() - 1 {
                assert(r[k] == p.last());
                assert(q.len() >= 2);
                assert(r[k + 1] == q[1]);
                assert(self.edge_i(q[0], q[1]));
            } else {
                assert(r[k] == q[k - p.len() + 1] && r[k + 1] == q[k - p.len() + 2]);
            }
        }
        assert(r.first() == a);
        assert(r.last() == c) by {
            if q.len() == 1 {
                assert(r =~= p);
            } else {
                assert(r.last() == q.last());
            }
        }
        assert(self.is_ipath(r));
    }

    /// A slot-level walk names a name-level walk.
    proof fn lemma_ipath_names(self, ip: Seq<int>, np: Seq<Seq<char>>)
        requires
            self.wf(),
            self.is_ipath(ip),
            np.len() == ip.len(),
            forall|k: int| 0 <= k < ip.len() ==> #[trigger] np[k] == self.name_of(ip[k]),
        ensures
            self.is_path(np),
    {
        assert forall|k: int| 0 <= k < np.len() implies self.has_node(#[trigger] np[k]) by {
            assert(self.is_node(ip[k]) && self.name_of(ip[k]) == np[k]);
        }
        assert forall|k: int| 0 <= k < np.len() - 1 implies self.dep(
            #[trigger] np[k],
            np[k + 1],
        ) by {
            assert(self.edge_i(ip[k], ip[k + 1]));
            assert(self.is_node(ip[k]) && self.is_node(ip[k + 1]));
        }
    }

    /// A name-level walk is carried by slots, uniquely.
    proof fn lemma_path_indices(self, np: Seq<Seq<char>>) -> (ip: Seq<int>)
        requires
            self.wf(),
            self.is_path(np),
        ensures
            self.is_ipath(ip),
            ip.len() == np.len(),
            forall|k: int| 0 <= k < ip.len() ==> self.name_of(#[trigger] ip[k]) == np[k],
        decreases np.len(),
    {
        if np.len() == 1 {
            assert(self.has_node(np[0]));
            let i = choose|i: int| self.is_node(i) && self.name_of(i) == np[0];
            let ip = seq![i];
            assert(self.is_ipath(ip));
            ip
        } else {
            let hd = np.drop_last();
            assert(hd.len() >= 1);
            assert forall|k: int| 0 <= k < hd.len() implies self.has_node(#[trigger] hd[k]) by {
                assert(hd[k] == np[k]);
            }
            assert forall|k: int| 0 <= k < hd.len() - 1 implies self.dep(
                #[trigger] hd[k],
                hd[k + 1],
            ) by {
                assert(hd[k] == np[k] && hd[k + 1] == np[k + 1]);
            }
            let ip0 = self.lemma_path_indices(hd);
            let m = np.len() - 1;
            assert(self.dep(np[m - 1], np[m]));
            let (i, j) = choose|i: int, j: int|
                {
                    &&& self.is_node(i)
                    &&& self.is_node(j)
                    &&& self.name_of(i) == np[m - 1]
                    &&& self.name_of(j) == np[m]
                    &&& #[trigger] self.edge_i(i, j)
                };
            self.lemma_name_unique(i, ip0[m - 1]);
            let ip = ip0.push(j);
            assert forall|k: int| 0 <= k < ip.len() implies self.is_node(#[trigger] ip[k]) by {
                if k < m {
                    assert(ip[k] == ip0[k]);
                }
            }
            assert forall|k: int| 0 <= k < ip.len() - 1 implies self.edge_i(
                #[trigger] ip[k],
                ip[k + 1],
            ) by {
                if k < m - 1 {
                    assert(ip[k] == ip0[k] && ip[k + 1] == ip0[k + 1]);
                } else {
                    assert(ip[k] == ip0[m - 1] && ip[k + 1] == j);
                }
            }
            assert forall|k: int| 0 <= k < ip.len() implies self.name_of(#[trigger] ip[k])
                == np[k] by {
                if k < m {
                    assert(ip[k] == ip0[k]);
                }
            }
            ip
        }
    }

    /// Reachability reads the same at the name level and the slot level.
    proof fn lemma_reaches_iff(self, a: Seq<char>, b: Seq<char>, ia: int, ib: int)
        requires
            self.wf(),
            self.is_node(ia),
            self.is_node(ib),
            self.name_of(ia) == a,
            self.name_of(ib) == b,
        ensures
            self.reaches(a, b) <==> self.reach_i(ia, ib),
    {
        if self.reaches(a, b) {
            let np = choose|p: Seq<Seq<char>>|
                self.is_path(p) && p.first() == a && p.last() == b;
            let ip = self.lemma_path_indices(np);
            assert(self.name_of(ip.first()) == a);
            assert(self.name_of(ip.last()) == b);
            self.lemma_name_unique(ip.first(), ia);
            self.lemma_name_unique(ip.last(), ib);
            assert(self.reach_i(ia, ib));
        }
        if self.reach_i(ia, ib) {
            let ip = choose|p: Seq<int>| self.is_ipath(p) && p.first() == ia && p.last() == ib;
            let np = ip.map_values(|i: int| self.name_of(i));
            assert forall|k: int| 0 <= k < ip.len() implies #[trigger] np[k] == self.name_of(
                ip[k],
            ) by {}
            self.lemma_ipath_names(ip, np);
            assert(np.first() == a && np.last() == b);
            assert(self.reaches(a, b));
        }
    }

    /// Acyclicity reads the same at the name level and the slot level.
    proof fn lemma_acyclic_iff(self)
        requires
            self.wf(),
        ensures
            self.acyclic() <==> self.acyclic_i(),
    {
        if !self.acyclic() {
            let np = choose|p: Seq<Seq<char>>| self.is_cycle(p);
            let ip = self.lemma_path_indices(np);
            assert(self.name_of(ip.first()) == np.first());
            assert(self.name_of(ip.last()) == np.last());
            self.lemma_name_unique(ip.first(), ip.last());
            assert(!self.acyclic_i());
        }
        if !self.acyclic_i() {
            let ip = choose|p: Seq<int>|
                self.is_ipath(p) && p.len() >= 2 && p.first() == p.last();
            let np = ip.map_values(|i: int| self.name_of(i));
            assert forall|k: int| 0 <= k < ip.len() implies #[trigger] np[k] == self.name_of(
                ip[k],
            ) by {}
            self.lemma_ipath_names(ip, np);
            assert(np.first() == np.last());
            assert(self.is_cycle(np));
            assert(!self.acyclic());
        }
    }

    /// `self` is `g0` with one extra edge from slot `pi` to slot `ci` and
    /// nothing else changed.
    spec fn is_with_edge(self, g0: Self, pi: int, ci: int) -> bool {
        &&& (forall|i: int| #[trigger] self.is_node(i) == g0.is_node(i))
        &&& (forall|i: int| g0.is_node(i) ==> #[trigger] self.name_of(i) == g0.name_of(i))
        &&& (forall|x: int, y: int|
            #[trigger] self.edge_i(x, y) == (g0.edge_i(x, y) || (x == pi && y == ci)))
    }

    /// Every walk of the extended graph either already existed, or passes
    /// through the new edge, splitting into old walks around it.
    proof fn lemma_path_new_edge(self, g0: Self, pi: int, ci: int, p: Seq<int>)
        requires
            self.is_with_edge(g0, pi, ci),
            self.is_ipath(p),
        ensures
            g0.reach_i(p.first(), p.last()) || (g0.reach_i(p.first(), pi) && g0.reach_i(
                ci,
                p.last(),
            )),
        decreases p.len(),
    {
        if p.len() == 1 {
            assert(self.is_node(p[0]));
            g0.lemma_reach_i_refl(p[0]);
        } else {
            let q = p.drop_last();
            assert forall|k: int| 0 <= k < q.len() implies self.is_node(#[trigger] q[k]) by {
                assert(q[k] == p[k]);
            }
            assert forall|k: int| 0 <= k < q.len() - 1 implies self.edge_i(
                #[trigger] q[k],
                q[k + 1],
            ) by {
                assert(q[k] == p[k] && q[k + 1] == p[k + 1]);
            }
            self.lemma_path_new_edge(g0, pi, ci, q);
            let z = p[p.len() - 2];
            let y = p[p.len() - 1];
            assert(q.last() == z);
            assert(self.edge_i(z, y));
            assert(self.is_node(y));
            assert(g0.is_node(y));
            if g0.edge_i(z, y) {
                if g0.reach_i(p.first(), z) {
                    g0.lemma_reach_i_step(p.first(), z, y);
                } else {
                    assert(g0.reach_i(ci, z));
                    g0.lemma_reach_i_step(ci, z, y);
                }
            } else {
                assert(z == pi && y == ci);
                g0.lemma_reach_i_refl(y);
                if g0.reach_i(p.first(), z) {
                } else {
                    assert(g0.reach_i(p.first(), pi));
                }
            }
        }
    }

    /// Adding an edge whose reverse direction was unreachable keeps the
    /// graph free of closed walks.
    proof fn lemma_acyclic_new_edge(self, g0: Self, pi: int, ci: int)
        requires
            self.is_with_edge(g0, pi, ci),
            !g0.reach_i(ci, pi),
            g0.acyclic_i(),
        ensures
            self.acyclic_i(),
    {
        if !self.acyclic_i() {
            let p = choose|p: Seq<int>|
                self.is_ipath(p) && p.len() >= 2 && p.first() == p.last();
            let a = p.first();
            let t = p.drop_first();
            assert forall|k: int| 0 <= k < t.len() implies self.is_node(#[trigger] t[k]) by {
                assert(t[k] == p[k + 1]);
            }
            assert forall|k: int| 0 <= k < t.len() - 1 implies self.edge_i(
                #[trigger] t[k],
                t[k + 1],
            ) by {
                assert(t[k] == p[k + 1] && t[k + 1] == p[k + 2]);
            }
            self.lemma_path_new_edge(g0, pi, ci, t);
            assert(t.first() == p[1]);
            assert(t.last() == a);
            assert(self.edge_i(a, p[1]));
            if g0.edge_i(a, p[1]) {
                if g0.reach_i(p[1], a) {
                    // a closed walk would already have existed
                    let r = choose|r: Seq<int>|
                        g0.is_ipath(r) && r.first() == p[1] && r.last() == a;
                    let w = seq![a] + r;
                    assert forall|k: int| 0 <= k < w.len() implies g0.is_node(
                        #[trigger] w[k],
                    ) by {
                        if k == 0 {
                            assert(w[0] == a);
                            assert(self.is_node(a));
                        } else {
                            assert(w[k] == r[k - 1]);
                        }
                    }
                    assert forall|k: int| 0 <= k < w.len() - 1 implies g0.edge_i(
                        #[trigger] w[k],
                        w[k + 1],
                    ) by {
                        if k == 0 {
                            assert(w[0] == a && w[1] == r[0]);
                        } else {
                            assert(w[k] == r[k - 1] && w[k + 1] == r[k]);
                        }
                    }
                    assert(g0.is_ipath(w) && w.len() >= 2 && w.first() == w.last());
                    assert(false);
                } else {
                    assert(g0.reach_i(p[1], pi) && g0.reach_i(ci, a));
                    g0.lemma_reach_i_step(ci, a, p[1]);
                    g0.lemma_reach_i_trans(ci, p[1], pi);
                    assert(false);
                }
            } else {
                assert(a == pi && p[1] == ci);
                if g0.reach_i(p[1], a) {
                    assert(g0.reach_i(ci, pi));
                } else {
                    assert(g0.reach_i(p[1], pi));
                    assert(g0.reach_i(ci, pi));
                }
                assert(false);
            }
        }
    }

    /// Rebuilds the walk from `start` to `target` out of the parent
    /// pointers a finished search left behind.
    fn build_ipath(
        &self,
        visited: &Vec<bool>,
        parent: &Vec<usize>,
        rank: &Vec<usize>,
        start: usize,
        target: usize,
    ) -> (p: Vec<usize>)
        requires
            self.wf(),
            self.search_ok(start as int, visited@, parent@, rank@),
            0 <= (target as int) < visited@.len(),
            visited@[target as int],
        ensures
            self.is_ipath(p@.map_values(|x: usize| x as int)),
            p@.len() >= 1,
            p@[0] == start,
            p@[p@.len() - 1] == target,
            p@.no_duplicates(),
    {
        let mut rev: Vec<usize> = Vec::new();
        let mut cur = target;
        rev.push(cur);
        while cur != start
            invariant
                self.wf(),
                self.search_ok(start as int, visited@, parent@, rank@),
                visited@.len() == self.n(),
                rank@.len() == self.n(),
                rev@.len() >= 1,
                (cur as int) < self.n(),
                visited@[cur as int],
                rev@[0] == target,
                rev@[rev@.len() - 1] == cur,
                forall|k: int|
                    0 <= k < rev@.len() ==> (#[trigger] rev@[k] as int) < self.n()
                        && self.is_node(rev@[k] as int),
                forall|k: int|
                    0 <= k < rev@.len() - 1 ==> self.edge_i(
                        rev@[k + 1] as int,
                        #[trigger] rev@[k] as int,
                    ),
                forall|a: int, b: int|
                    0 <= a < b < rev@.len() ==> rank@[#[trigger] rev@[b] as int] < rank@[
                        #[trigger] rev@[a] as int],
            decreases rank@[cur as int],
        {
            let prev = parent[cur];
            let ghost rpre = rev@;
            proof {
                assert(visited@[cur as int] && cur as int != start as int);
                assert(self.edge_i(parent@[cur as int] as int, cur as int));
                assert(visited@[parent@[cur as int] as int]);
                assert(rank@[parent@[cur as int] as int] < rank@[cur as int]);
            }
            rev.push(prev);
            proof {
                assert forall|a: int, b: int|
                    0 <= a < b < rev@.len() implies rank@[#[trigger] rev@[b] as int] < rank@[
                    #[trigger] rev@[a] as int] by {
                    if b == rev@.len() - 1 {
                        assert(rev@[a] == rpre[a]);
                        assert(rev@[b] == prev);
                        if a < rpre.len() - 1 {
                            assert(rank@[rpre[rpre.len() - 1] as int] < rank@[rpre[a] as int]);
                            assert(rpre[rpre.len() - 1] == cur);
                        }
                    } else {
                        assert(rev@[a] == rpre[a] && rev@[b] == rpre[b]);
                    }
                }
            }
            cur = prev;
        }
        proof {
            assert forall|a: int, b: int| 0 <= a < b < rev@.len() implies rev@[a] != rev@[b] by {
                assert(rank@[rev@[b] as int] < rank@[rev@[a] as int]);
            }
        }
        let m = rev.len();
        let mut p: Vec<usize> = Vec::new();
        for k in 0..m
            invariant
                self.wf(),
                m == rev@.len(),
                m >= 1,
                p@.len() == k,
                rev@[0] == target,
                rev@[m - 1] == start,
                rev@.no_duplicates(),
                forall|t: int| 0 <= t < k ==> #[trigger] p@[t] == rev@[m - 1 - t],
                forall|t: int|
                    0 <= t < rev@.len() ==> (#[trigger] rev@[t] as int) < self.n()
                        && self.is_node(rev@[t] as int),
                forall|t: int|
                    0 <= t < rev@.len() - 1 ==> self.edge_i(
                        rev@[t + 1] as int,
                        #[trigger] rev@[t] as int,
                    ),
        {
            p.push(rev[m - 1 - k]);
        }
        proof {
            let ip = p@.map_values(|x: usize| x as int);
            assert(ip.len() == m);
            assert forall|k: int| 0 <= k < ip.len() implies self.is_node(#[trigger] ip[k]) by {
                assert(ip[k] == p@[k] as int);
                assert(p@[k] == rev@[m - 1 - k]);
            }
            assert forall|k: int| 0 <= k < ip.len() - 1 implies self.edge_i(
                #[trigger] ip[k],
                ip[k + 1],
            ) by {
                assert(ip[k] == rev@[m - 1 - k] as int);
                assert(ip[k + 1] == rev@[m - 1 - (k + 1)] as int);
                assert(self.edge_i(rev@[(m - 2 - k) + 1] as int, rev@[m - 2 - k] as int));
            }
            assert(p@[0] == rev@[m - 1]);
            assert(p@[m - 1] == rev@[0]);
            assert forall|a: int, b: int| 0 <= a < b < p@.len() implies p@[a] != p@[b] by {
                assert(p@[a] == rev@[m - 1 - a]);
                assert(p@[b] == rev@[m - 1 - b]);
            }
        }
        p
    }

    /// Two live slots never share a name.
    proof fn lemma_name_unique(self, i: int, j: int)
        requires
            self.wf(),
            self.is_node(i),
            self.is_node(j),
            self.name_of(i) == self.name_of(j),
        ensures
            i == j,
    {
    }

    pub fn new() -> (g: ProfileGraph)
        ensures
            g.wf(),
            forall|nm: Seq<char>| !g.has_node(nm),
            forall|p: Seq<char>, c: Seq<char>| !g.dep(p, c),
            g.acyclic(),
    {
        let g = ProfileGraph { names: Vec::new(), alive: Vec::new(), adj: Vec::new() };
        proof {
            assert forall|p: Seq<Seq<char>>| !g.is_cycle(p) by {
                if p.len() >= 1 {
                    assert(!g.has_node(p[0]));
                }
            }
        }
        g
    }

    /// Finds the live slot holding `name`, if any.
    fn find_index(&self, name: &str) -> (r: Option<usize>)
        requires
            self.wf(),
        ensures
            match r {
                Some(i) => self.is_node(i as int) && self.name_of(i as int) == name@,
                None => !self.has_node(name@),
            },
    {
        let n = self.names.len();
        for i in 0..n
            invariant
                self.wf(),
                n == self.names.len(),
                forall|j: int| 0 <= j < i ==> !(self.is_node(j) && self.name_of(j) == name@),
        {
            if self.alive[i] && str_eq(self.names[i].as_str(), name) {
                return Some(i);
            }
        }
        None
    }

    /// Whether slot `i`'s adjacency list already holds `j`.
    fn has_edge_to(&self, i: usize, j: usize) -> (r: bool)
        requires
            self.wf(),
            self.is_node(i as int),
        ensures
            r == self.edge_i(i as int, j as int),
    {
        let deg = self.adj[i].len();
        for t in 0..deg
            invariant
                self.wf(),
                self.is_node(i as int),
                (i as int) < self.adj.len(),
                deg == self.adj@[i as int]@.len(),
                forall|k: int| 0 <= k < t ==> (#[trigger] self.adj@[i as int]@[k]) != j,
        {
            if self.adj[i][t] == j {
                proof {
                    assert(self.adj@[i as int]@[t as int] as int == j as int);
                }
                return true;
            }
        }
        proof {
            if self.edge_i(i as int, j as int) {
                let k = choose|k: int|
                    0 <= k < self.adj@[i as int]@.len() && self.adj@[i as int]@[k] as int
                        == j as int;
                assert(self.adj@[i as int]@[k] != j);
                assert(false);
            }
        }
        false
    }

    /// Spells a slot-level walk out as profile names.
    fn ipath_to_names(&self, p: &Vec<usize>) -> (r: Vec<String>)
        requires
            self.wf(),
            self.is_ipath(p@.map_values(|x: usize| x as int)),
        ensures
            r.deep_view().len() == p@.len(),
            forall|k: int|
                0 <= k < p@.len() ==> r.deep_view()[k] == self.name_of(#[trigger] p@[k] as int),
            self.is_path(r.deep_view()),
            p@.no_duplicates() ==> r.deep_view().no_duplicates(),
    {
        let ghost ip = p@.map_values(|x: usize| x as int);
        let m = p.len();
        let mut r: Vec<String> = Vec::new();
        for k in 0..m
            invariant
                self.wf(),
                m == p@.len(),
                self.is_ipath(ip),
                ip == p@.map_values(|x: usize| x as int),
                r.deep_view().len() == k,
                forall|t: int|
                    0 <= t < k ==> r.deep_view()[t] == self.name_of(#[trigger] p@[t] as int),
        {
            proof {
                assert(self.is_node(ip[k as int]));
                assert(ip[k as int] == p@[k as int] as int);
            }
            r.push(self.names[p[k]].clone());
            proof {
                assert forall|t: int|
                    0 <= t < k + 1 implies r.deep_view()[t] == self.name_of(
                    #[trigger] p@[t] as int,
                ) by {
                    if t == k as int {
                        assert(r.deep_view()[t] == self.names@[p@[t] as int]@);
                    }
                }
            }
        }
        proof {
            self.lemma_ipath_names(ip, r.deep_view());
            if p@.no_duplicates() {
                assert forall|a: int, b: int|
                    0 <= a < b < r.deep_view().len() implies r.deep_view()[a] != r.deep_view()[
                b] by {
                    assert(self.is_node(ip[a]) && self.is_node(ip[b]));
                    assert(ip[a] == p@[a] as int && ip[b] == p@[b] as int);
                    if self.name_of(ip[a]) == self.name_of(ip[b]) {
                        self.lemma_name_unique(ip[a], ip[b]);
                    }
                }
            }
        }
        r
    }

    /// Adds the edge parent → child.  A missing endpoint is reported, and
    /// so is an edge that would close a loop; a rejected edge leaves the
    /// graph exactly as it was.  On success, nothing but the one edge
    /// changes, and a graph free of cycles stays free of cycles.
    pub fn add_dependency(&mut self, parent: &str, child: &str) -> (r: Result<
        (),
        DependencyError,
    >)
        requires
            old(self).wf(),
        ensures
            final(self).wf(),
            forall|nm: Seq<char>| final(self).has_node(nm) == old(self).has_node(nm),
            match r {
                Ok(()) => {
                    &&& old(self).has_node(parent@)
                    &&& old(self).has_node(child@)
                    &&& !old(self).reaches(child@, parent@)
                    &&& (forall|x: Seq<char>, y: Seq<char>|
                        final(self).dep(x, y) == (old(self).dep(x, y) || (x == parent@ && y
                            == child@)))
                    &&& (old(self).acyclic() ==> final(self).acyclic())
                },
                Err(DependencyError::ProfileNotFound(n)) => {
                    &&& n@ == parent@
                    &&& !old(self).has_node(parent@)
                    &&& *final(self) == *old(self)
                },
                Err(DependencyError::DependencyNotFound(a, b)) => {
                    &&& a@ == parent@
                    &&& b@ == child@
                    &&& old(self).has_node(parent@)
                    &&& !old(self).has_node(child@)
                    &&& *final(self) == *old(self)
                },
                Err(DependencyError::CircularDependency(path)) => {
                    let dv = path.deep_view();
                    &&& old(self).has_node(parent@)
                    &&& old(self).has_node(child@)
                    &&& old(self).reaches(child@, parent@)
                    &&& *final(self) == *old(self)
                    &&& dv.len() >= 3
                    &&& dv[0] == parent@
                    &&& dv[1] == child@
                    &&& dv[dv.len() - 2] == parent@
                    &&& dv.last() == child@
                    &&& old(self).is_path(dv.subrange(1, dv.len() - 1))
                },
                _ => false,
            },
    {
        let pi = match self.find_index(parent) {
            Some(i) => i,
            None => {
                return Err(DependencyError::ProfileNotFound(parent.to_owned()));
            },
        };
        let ci = match self.find_index(child) {
            Some(i) => i,
            None => {
                proof {
                    assert(self.has_node(parent@));
                }
                return Err(DependencyError::DependencyNotFound(
                    parent.to_owned(),
                    child.to_owned(),
                ));
            },
        };
        proof {
            assert(self.has_node(parent@));
            assert(self.has_node(child@));
        }
        let (visited, par, rank) = self.search_from(ci);
        if visited[pi] {
            let ip = self.build_ipath(&visited, &par, &rank, ci, pi);
            let names_path = self.ipath_to_names(&ip);
            proof {
                assert(self.reach_i(ci as int, pi as int));
                self.lemma_reaches_iff(child@, parent@, ci as int, pi as int);
            }
            let ghost ndv = names_path.deep_view();
            let mut path: Vec<String> = Vec::new();
            path.push(parent.to_owned());
            let mut tail = names_path;
            path.append(&mut tail);
            path.push(child.to_owned());
            proof {
                let dv = path.deep_view();
                assert(dv.len() == 2 + ndv.len());
                assert(dv[0] == parent@);
                assert(dv.last() == child@) by {
                    assert(path@[dv.len() - 1]@ == child@);
                }
                assert forall|k: int| 0 <= k < ndv.len() implies dv[k + 1] == ndv[k] by {
                    assert(path@[k + 1] == names_path@[k]);
                }
                assert(dv.subrange(1, dv.len() - 1) =~= ndv);
                assert(ndv[0] == self.name_of(ip@[0] as int));
                assert(ip@[0] == ci);
                assert(self.name_of(ci as int) == child@);
                assert(dv[1] == child@);
                assert(ndv.last() == self.name_of(ip@[ip@.len() - 1] as int));
                assert(ip@[ip@.len() - 1] == pi);
                assert(self.name_of(pi as int) == parent@);
                assert(dv[dv.len() - 2] == ndv.last());
            }
            return Err(DependencyError::CircularDependency(path));
        }
        proof {
            assert(!self.reach_i(ci as int, pi as int));
            self.lemma_reaches_iff(child@, parent@, ci as int, pi as int);
            assert(!self.reaches(child@, parent@));
        }
        if self.has_edge_to(pi, ci) {
            proof {
                assert(self.edge_i(pi as int, ci as int));
                assert(self.dep(parent@, child@));
                assert forall|x: Seq<char>, y: Seq<char>|
                    self.dep(x, y) == (self.dep(x, y) || (x == parent@ && y == child@)) by {
                    if x == parent@ && y == child@ {
                        assert(self.dep(x, y));
                    }
                }
            }
            return Ok(());
        }
        let ghost g0 = *self;
        let mut row = self.adj.remove(pi);
        row.push(ci);
        self.adj.insert(pi, row);
        proof {
            let g1 = *self;
            assert(g1.adj@ =~= g0.adj@.update(pi as int, g1.adj@[pi as int]));
            assert(g1.adj@[pi as int]@ =~= g0.adj@[pi as int]@.push(ci));
            assert(g1.names == g0.names);
            assert(g1.alive == g0.alive);
            self.lemma_add_edge_post(g0, pi as int, ci as int, parent@, child@);
            if g0.acyclic() {
                g0.lemma_acyclic_iff();
                g1.lemma_acyclic_new_edge(g0, pi as int, ci as int);
                g1.lemma_acyclic_iff();
            }
        }
        Ok(())
    }

    /// After pushing `ci` onto slot `pi`'s adjacency list, the graph is the
    /// old graph plus one edge, well-formedness holds, and the name-level
    /// relations shift accordingly.
    proof fn lemma_add_edge_post(
        self,
        g0: Self,
        pi: int,
        ci: int,
        pn: Seq<char>,
        cn: Seq<char>,
    )
        requires
            g0.wf(),
            g0.is_node(pi),
            g0.is_node(ci),
            g0.name_of(pi) == pn,
            g0.name_of(ci) == cn,
            !g0.edge_i(pi, ci),
            self.names == g0.names,
            self.alive == g0.alive,
            self.adj@.len() == g0.adj@.len(),
            self.adj@[pi]@ =~= g0.adj@[pi]@.push(ci as usize),
            forall|i: int| 0 <= i < g0.adj@.len() && i != pi ==> self.adj@[i] == g0.adj@[i],
        ensures
            self.wf(),
            forall|nm: Seq<char>| self.has_node(nm) == g0.has_node(nm),
            forall|x: Seq<char>, y: Seq<char>|
                self.dep(x, y) == (g0.dep(x, y) || (x == pn && y == cn)),
            self.is_with_edge(g0, pi, ci),
    {
        let g1 = self;
        assert forall|i: int| #[trigger] g1.is_node(i) == g0.is_node(i) by {}
        assert forall|i: int| g0.is_node(i) implies #[trigger] g1.name_of(i) == g0.name_of(
            i,
        ) by {}
        assert forall|x: int, y: int|
            #[trigger] g1.edge_i(x, y) == (g0.edge_i(x, y) || (x == pi && y == ci)) by {
            if x == pi {
                let row0 = g0.adj@[pi]@;
                let row1 = g1.adj@[pi]@;
                assert(row1.len() == row0.len() + 1);
                if g1.edge_i(x, y) {
                    let k = choose|k: int| 0 <= k < row1.len() && row1[k] as int == y;
                    if k < row0.len() {
                        assert(row0[k] == row1[k]);
                        assert(g0.edge_i(x, y));
                    } else {
                        assert(row1[k] == ci as usize);
                        assert(y == ci);
                    }
                }
                if g0.edge_i(x, y) {
                    let k = choose|k: int| 0 <= k < row0.len() && row0[k] as int == y;
                    assert(row1[k] == row0[k]);
                    assert(g1.edge_i(x, y));
                }
                if y == ci {
                    assert(row1[row1.len() - 1] == ci as usize);
                    assert(g1.edge_i(x, y));
                }
            } else {
                if g1.edge_i(x, y) {
                    assert(g1.adj@[x] == g0.adj@[x]);
                }
                if g0.edge_i(x, y) {
                    assert(g1.adj@[x] == g0.adj@[x]);
                }
            }
        }
        assert(g1.is_with_edge(g0, pi, ci));
        // well-formedness
        assert forall|i: int|
            0 <= i < g1.n() && !g1.alive@[i] implies g1.adj@[i]@.len() == 0 by {
            assert(!g0.alive@[i]);
            if i != pi {
                assert(g1.adj@[i] == g0.adj@[i]);
            } else {
                assert(g0.is_node(pi));
            }
        }
        assert forall|i: int, k: int|
            0 <= i < g1.n() && 0 <= k < g1.adj@[i]@.len() implies g1.is_node(
            #[trigger] g1.adj@[i]@[k] as int) by {
            if i == pi {
                if k < g0.adj@[pi]@.len() {
                    assert(g1.adj@[i]@[k] == g0.adj@[i]@[k]);
                    assert(g0.is_node(g0.adj@[i]@[k] as int));
                } else {
                    assert(g1.adj@[i]@[k] == ci as usize);
                }
            } else {
                assert(g1.adj@[i] == g0.adj@[i]);
                assert(g0.is_node(g0.adj@[i]@[k] as int));
            }
        }
        assert forall|i: int| 0 <= i < g1.n() implies (#[trigger] g1.adj@[i]@).no_duplicates() by {
            if i == pi {
                let row0 = g0.adj@[pi]@;
                let row1 = g1.adj@[pi]@;
                assert forall|a: int, b: int| 0 <= a < b < row1.len() implies row1[a]
                    != row1[b] by {
                    if b < row0.len() {
                        assert(row1[a] == row0[a] && row1[b] == row0[b]);
                    } else {
                        assert(row1[b] == ci as usize);
                        assert(row1[a] == row0[a]);
                        if row0[a] == ci as usize {
                            assert(g0.edge_i(pi, ci));
                        }
                    }
                }
            } else {
                assert(g1.adj@[i] == g0.adj@[i]);
            }
        }
        assert(g1.wf());
        // node set unchanged
        assert forall|nm: Seq<char>| g1.has_node(nm) == g0.has_node(nm) by {
            if g1.has_node(nm) {
                let i = choose|i: int| g1.is_node(i) && g1.name_of(i) == nm;
                assert(g0.is_node(i) && g0.name_of(i) == nm);
            }
            if g0.has_node(nm) {
                let i = choose|i: int| g0.is_node(i) && g0.name_of(i) == nm;
                assert(g1.is_node(i) && g1.name_of(i) == nm);
            }
        }
        // name-level dependency relation
        assert forall|x: Seq<char>, y: Seq<char>|
            g1.dep(x, y) == (g0.dep(x, y) || (x == pn && y == cn)) by {
            if g1.dep(x, y) {
                let (i, j) = choose|i: int, j: int|
                    {
                        &&& g1.is_node(i)
                        &&& g1.is_node(j)
                        &&& g1.name_of(i) == x
                        &&& g1.name_of(j) == y
                        &&& #[trigger] g1.edge_i(i, j)
                    };
                if g0.edge_i(i, j) {
                    assert(g0.dep(x, y));
                } else {
                    assert(i == pi && j == ci);
                    g0.lemma_name_unique(i, pi);
                    assert(x == pn && y == cn);
                }
            }
            if g0.dep(x, y) {
                let (i, j) = choose|i: int, j: int|
                    {
                        &&& g0.is_node(i)
                        &&& g0.is_node(j)
                        &&& g0.name_of(i) == x
                        &&& g0.name_of(j) == y
                        &&& #[trigger] g0.edge_i(i, j)
                    };
                assert(g1.edge_i(i, j));
                assert(g1.dep(x, y));
            }
            if x == pn && y == cn {
                assert(g1.edge_i(pi, ci));
                assert(g1.is_node(pi) && g1.is_node(ci));
                assert(g1.dep(x, y));
            }
        }
    }

    /// The bookkeeping of a resolution in progress: `resolved` marks
    /// finished slots, `out` lists their names, dependencies strictly
    /// before dependents, and everything finished is reachable from the
    /// root of the resolution.
    spec fn resolved_ok(self, resolved: Seq<bool>, out: Seq<Seq<char>>, root: int) -> bool {
        &&& resolved.len() == self.n()
        &&& (forall|j: int| 0 <= j < self.n() && #[trigger] resolved[j] ==> self.is_node(j))
        &&& (forall|j: int|
            0 <= j < self.n() && #[trigger] resolved[j] ==> self.reach_i(root, j))
        &&& out.no_duplicates()
        &&& (forall|j: int|
            0 <= j < self.n() && #[trigger] resolved[j] ==> out.contains(self.name_of(j)))
        &&& (forall|k: int|
            0 <= k < out.len() ==> exists|j: int|
                0 <= j < self.n() && resolved[j] && self.name_of(j) == #[trigger] out[k])
        &&& (forall|j: int, c: int|
            0 <= j < self.n() && #[trigger] resolved[j] && #[trigger] self.edge_i(j, c) ==> 0
                <= c < self.n() && resolved[c])
        &&& (forall|a: int, b: int|
            0 <= a < out.len() && 0 <= b < out.len() && self.dep(
                #[trigger] out[a],
                #[trigger] out[b],
            ) ==> b < a)
    }

    /// A live visiting stack extended by one child is again a walk from
    /// the root, without repeats, and cannot outgrow the arena.
    proof fn lemma_stack_extend(self, w: Seq<usize>, c: usize, root: int)
        requires
            self.wf(),
            self.is_ipath(w.map_values(|x: usize| x as int)),
            w.no_duplicates(),
            w[0] as int == root,
            self.edge_i(w[w.len() - 1] as int, c as int),
            self.is_node(c as int),
            forall|k: int| 0 <= k < w.len() ==> (#[trigger] w[k]) != c,
        ensures
            self.is_ipath(w.push(c).map_values(|x: usize| x as int)),
            w.push(c).no_duplicates(),
            w.push(c)[0] as int == root,
            w.push(c).len() <= self.n(),
    {
        let w2 = w.push(c);
        let w2i = w2.map_values(|x: usize| x as int);
        let wi = w.map_values(|x: usize| x as int);
        assert forall|q: int| 0 <= q < w2i.len() implies self.is_node(#[trigger] w2i[q]) by {
            if q < w.len() {
                assert(w2[q] == w[q]);
                assert(w2i[q] == w[q] as int);
                assert(self.is_node(wi[q]));
            } else {
                assert(w2[q] == c);
            }
        }
        assert forall|q: int| 0 <= q < w2i.len() - 1 implies self.edge_i(
            #[trigger] w2i[q],
            w2i[q + 1],
        ) by {
            if q < w.len() - 1 {
                assert(w2i[q] == wi[q] && w2i[q + 1] == wi[q + 1]);
                assert(self.edge_i(wi[q], wi[q + 1]));
            } else {
                assert(w2i[q] == w[w.len() - 1] as int && w2i[q + 1] == c as int);
            }
        }
        assert(self.is_ipath(w2i));
        assert forall|a: int, b: int| 0 <= a < b < w2.len() implies w2[a] != w2[b] by {
            if b < w.len() {
                assert(w2[a] == w[a] && w2[b] == w[b]);
            } else {
                assert(w2[b] == c);
                assert(w2[a] == w[a]);
            }
        }
        assert(w2[0] == w[0]);
        assert forall|k: int| 0 <= k < w2.len() implies (#[trigger] w2[k] as int) < self.n() by {
            assert(self.is_node(w2i[k]));
            assert(w2i[k] == w2[k] as int);
        }
        lemma_distinct_bounded(w2, self.n());
    }

    /// A child met on the live visiting stack closes a cycle, and the
    /// names read off the stack from that child onward spell it out.
    proof fn lemma_resolve_cycle(self, w: Seq<usize>, pos: int, c: usize, root: int, dv: Seq<Seq<char>>)
        requires
            self.wf(),
            self.is_ipath(w.map_values(|x: usize| x as int)),
            w[0] as int == root,
            self.is_node(root),
            0 <= pos < w.len(),
            w[pos] == c,
            self.edge_i(w[w.len() - 1] as int, c as int),
            self.is_node(c as int),
            dv.len() == w.len() - pos + 1,
            forall|q: int|
                0 <= q < w.len() - pos ==> #[trigger] dv[q] == self.name_of(w[pos + q] as int),
            dv[dv.len() - 1] == self.name_of(c as int),
        ensures
            self.is_cycle(dv),
            self.reaches(self.name_of(root), dv.first()),
    {
        let wi = w.map_values(|x: usize| x as int);
        let m = w.len() - pos;
        let ip = wi.subrange(pos, w.len() as int).push(c as int);
        assert forall|q: int| 0 <= q < ip.len() implies self.is_node(#[trigger] ip[q]) by {
            if q < m {
                assert(ip[q] == wi[pos + q]);
                assert(wi[pos + q] == w[pos + q] as int);
            }
        }
        assert forall|q: int| 0 <= q < ip.len() - 1 implies self.edge_i(
            #[trigger] ip[q],
            ip[q + 1],
        ) by {
            if q < m - 1 {
                assert(ip[q] == wi[pos + q] && ip[q + 1] == wi[pos + q + 1]);
                assert(self.edge_i(wi[pos + q], wi[pos + q + 1]));
            } else {
                assert(q == m - 1);
                assert(ip[q] == wi[w.len() - 1]);
                assert(wi[w.len() - 1] == w[w.len() - 1] as int);
                assert(ip[q + 1] == c as int);
            }
        }
        assert(self.is_ipath(ip));
        assert forall|q: int| 0 <= q < dv.len() implies dv[q] == self.name_of(
            #[trigger] ip[q]) by {
            if q < m {
                assert(ip[q] == w[pos + q] as int);
            }
        }
        self.lemma_ipath_names(ip, dv);
        assert(ip[0] == w[pos] as int);
        assert(dv.first() == self.name_of(c as int));
        assert(dv.last() == self.name_of(c as int));
        assert(self.is_cycle(dv));
        let pref = wi.subrange(0, pos + 1);
        assert forall|q: int| 0 <= q < pref.len() implies self.is_node(#[trigger] pref[q]) by {
            assert(pref[q] == wi[q]);
        }
        assert forall|q: int| 0 <= q < pref.len() - 1 implies self.edge_i(
            #[trigger] pref[q],
            pref[q + 1],
        ) by {
            assert(pref[q] == wi[q] && pref[q + 1] == wi[q + 1]);
        }
        assert(self.is_ipath(pref));
        assert(pref.first() == wi[0] && wi[0] == root);
        assert(pref.last() == c as int);
        assert(self.reach_i(root, c as int));
        self.lemma_reaches_iff(self.name_of(root), self.name_of(c as int), root, c as int);
    }

    /// Appending slot `i` to the output once all its children are finished
    /// keeps every bookkeeping clause of the resolution.
    proof fn lemma_resolve_append(
        self,
        v0: Seq<usize>,
        i: usize,
        rpre: Seq<bool>,
        outpre: Seq<Seq<char>>,
        r0: Seq<bool>,
        out0: Seq<Seq<char>>,
        root: int,
        r2: Seq<bool>,
        out2: Seq<Seq<char>>,
    )
        requires
            self.wf(),
            self.is_node(i as int),
            self.is_ipath(v0.push(i).map_values(|x: usize| x as int)),
            v0.push(i)[0] as int == root,
            self.is_node(root),
            self.resolved_ok(rpre, outpre, root),
            forall|k: int|
                0 <= k < v0.push(i).len() ==> !rpre[#[trigger] v0.push(i)[k] as int],
            forall|j: int| 0 <= j < self.n() && #[trigger] r0[j] ==> rpre[j],
            forall|j: int|
                0 <= j < self.n() && #[trigger] rpre[j] && !r0[j] ==> self.reach_i(i as int, j),
            out0.is_prefix_of(outpre),
            0 <= (i as int) < self.adj.len(),
            forall|k: int|
                0 <= k < self.adj@[i as int]@.len() ==> rpre[#[trigger] self.adj@[i as int]@[k] as int],
            r2 == rpre.update(i as int, true),
            out2 == outpre.push(self.name_of(i as int)),
        ensures
            self.resolved_ok(r2, out2, root),
            forall|j: int| 0 <= j < self.n() && #[trigger] r0[j] ==> r2[j],
            r2[i as int],
            forall|j: int|
                0 <= j < self.n() && #[trigger] r2[j] && !r0[j] ==> self.reach_i(i as int, j),
            forall|k: int| 0 <= k < v0.len() ==> !r2[#[trigger] v0[k] as int],
            out0.is_prefix_of(out2),
            out2.len() >= 1,
            out2.last() == self.name_of(i as int),
    {
        let ii = i as int;
        let nm = self.name_of(ii);
        let wi = v0.push(i).map_values(|x: usize| x as int);
        assert(wi.first() == root);
        assert(wi.last() == ii) by {
            assert(wi[wi.len() - 1] == v0.push(i)[wi.len() - 1] as int);
        }
        assert(self.reach_i(root, ii));
        self.lemma_reach_i_refl(ii);
        assert(!rpre[ii]) by {
            assert(!rpre[v0.push(i)[v0.len() as int] as int]);
        }
        assert(!outpre.contains(nm)) by {
            if outpre.contains(nm) {
                let k = choose|k: int| 0 <= k < outpre.len() && outpre[k] == nm;
                let j = choose|j: int|
                    0 <= j < self.n() && rpre[j] && self.name_of(j) == outpre[k];
                self.lemma_name_unique(j, ii);
            }
        }
        assert(out2.no_duplicates()) by {
            assert forall|a: int, b: int| 0 <= a < b < out2.len() implies out2[a] != out2[b] by {
                if b < outpre.len() {
                } else {
                    assert(out2[b] == nm);
                    assert(out2[a] == outpre[a]);
                    if outpre[a] == nm {
                        assert(outpre.contains(nm));
                    }
                }
            }
        }
        assert forall|j: int| 0 <= j < self.n() && #[trigger] r2[j] implies self.is_node(j)
            && self.reach_i(root, j) && out2.contains(self.name_of(j)) by {
            if j == ii {
                assert(out2[out2.len() - 1] == nm);
            } else {
                assert(rpre[j]);
                assert(outpre.contains(self.name_of(j)));
                let k = choose|k: int| 0 <= k < outpre.len() && outpre[k] == self.name_of(j);
                assert(out2[k] == self.name_of(j));
            }
        }
        assert forall|k: int| 0 <= k < out2.len() implies exists|j: int|
            0 <= j < self.n() && r2[j] && self.name_of(j) == #[trigger] out2[k] by {
            if k < outpre.len() {
                let j = choose|j: int|
                    0 <= j < self.n() && rpre[j] && self.name_of(j) == outpre[k];
                assert(r2[j] && self.name_of(j) == out2[k]);
            } else {
                assert(r2[ii] && self.name_of(ii) == out2[k]);
            }
        }
        assert forall|j: int, c: int|
            0 <= j < self.n() && #[trigger] r2[j] && #[trigger] self.edge_i(j, c) implies 0 <= c
            < self.n() && r2[c] by {
            if j == ii {
                let k = choose|k: int|
                    0 <= k < self.adj@[ii]@.len() && self.adj@[ii]@[k] as int == c;
                assert(rpre[self.adj@[ii]@[k] as int]);
            } else {
                assert(rpre[j]);
            }
        }
        assert forall|a: int, b: int|
            0 <= a < out2.len() && 0 <= b < out2.len() && self.dep(
                #[trigger] out2[a],
                #[trigger] out2[b],
            ) implies b < a by {
            if a < outpre.len() && b < outpre.len() {
            } else if b == out2.len() - 1 && a < outpre.len() {
                let j = choose|j: int|
                    0 <= j < self.n() && rpre[j] && self.name_of(j) == outpre[a];
                let (x, y) = choose|x: int, y: int|
                    {
                        &&& self.is_node(x)
                        &&& self.is_node(y)
                        &&& self.name_of(x) == out2[a]
                        &&& self.name_of(y) == out2[b]
                        &&& #[trigger] self.edge_i(x, y)
                    };
                self.lemma_name_unique(x, j);
                self.lemma_name_unique(y, ii);
                assert(self.edge_i(j, ii));
                assert(rpre[ii]);
            } else if b == out2.len() - 1 && a == out2.len() - 1 {
                let (x, y) = choose|x: int, y: int|
                    {
                        &&& self.is_node(x)
                        &&& self.is_node(y)
                        &&& self.name_of(x) == out2[a]
                        &&& self.name_of(y) == out2[b]
                        &&& #[trigger] self.edge_i(x, y)
                    };
                self.lemma_name_unique(x, ii);
                self.lemma_name_unique(y, ii);
                let k = choose|k: int|
                    0 <= k < self.adj@[ii]@.len() && self.adj@[ii]@[k] as int == ii;
                assert(rpre[self.adj@[ii]@[k] as int]);
            }
        }
        assert forall|j: int|
            0 <= j < self.n() && #[trigger] r2[j] && !r0[j] implies self.reach_i(ii, j) by {
            if j != ii {
                assert(rpre[j]);
            }
        }
        assert forall|k: int| 0 <= k < v0.len() implies !r2[#[trigger] v0[k] as int] by {
            assert(v0.push(i)[k] == v0[k]);
            assert(!rpre[v0.push(i)[k] as int]);
            assert(wi[k] == v0[k] as int);
            assert(wi[wi.len() - 1] == ii);
            if v0[k] as int == ii {
                assert(rpre[ii] == rpre[v0[k] as int]);
            }
        }
        assert(out0.is_prefix_of(out2)) by {
            assert forall|k: int| 0 <= k < out0.len() implies out0[k] == out2[k] by {
                assert(out0[k] == outpre.subrange(0, out0.len() as int)[k]);
            }
            assert(out0 =~= out2.subrange(0, out0.len() as int));
        }
        assert(out2.last() == nm);
    }

    /// Depth-first post-order resolution of slot `i`: finishes every slot
    /// reachable from `i`, appending each name after all its dependencies,
    /// or reports a live cycle met on the way.
    fn dfs_resolve(
        &self,
        i: usize,
        visiting: &mut Vec<usize>,
        resolved: &mut Vec<bool>,
        result: &mut Vec<String>,
        root: Ghost<int>,
    ) -> (r: Result<(), DependencyError>)
        requires
            self.wf(),
            self.is_node(i as int),
            self.is_ipath(old(visiting)@.push(i).map_values(|x: usize| x as int)),
            old(visiting)@.push(i).no_duplicates(),
            old(visiting)@.push(i)[0] as int == root@,
            self.is_node(root@),
            self.resolved_ok(old(resolved)@, old(result).deep_view(), root@),
            forall|k: int|
                0 <= k < old(visiting)@.len() ==> !old(resolved)@[#[trigger] old(
                    visiting,
                )@[k] as int],
            !old(resolved)@[i as int],
        ensures
            match r {
                Ok(()) => {
                    &&& final(visiting)@ == old(visiting)@
                    &&& self.resolved_ok(final(resolved)@, final(result).deep_view(), root@)
                    &&& (forall|j: int|
                        0 <= j < self.n() && #[trigger] old(resolved)@[j] ==> final(resolved)@[j])
                    &&& final(resolved)@.len() == self.n()
                    &&& final(resolved)@[i as int]
                    &&& (forall|j: int|
                        0 <= j < self.n() && #[trigger] final(resolved)@[j] && !old(resolved)@[j]
                            ==> self.reach_i(i as int, j))
                    &&& (forall|k: int|
                        0 <= k < old(visiting)@.len() ==> !final(resolved)@[#[trigger] old(
                            visiting,
                        )@[k] as int])
                    &&& old(result).deep_view().is_prefix_of(final(result).deep_view())
                    &&& final(result).deep_view().len() >= 1
                    &&& final(result).deep_view().last() == self.name_of(i as int)
                },
                Err(DependencyError::CircularDependency(path)) => {
                    let dv = path.deep_view();
                    &&& self.is_cycle(dv)
                    &&& self.reaches(self.name_of(root@), dv.first())
                },
                _ => false,
            },
        decreases self.n() - old(visiting)@.len(),
    {
        let ghost v0 = visiting@;
        let ghost r0 = resolved@;
        let ghost out0 = result.deep_view();
        let ghost ii = i as int;
        proof {
            let wi = v0.push(i).map_values(|x: usize| x as int);
            assert forall|k: int| 0 <= k < v0.push(i).len() implies (#[trigger] v0.push(
                i,
            )[k] as int) < self.n() by {
                assert(self.is_node(wi[k]));
                assert(wi[k] == v0.push(i)[k] as int);
            }
            lemma_distinct_bounded(v0.push(i), self.n());
        }
        visiting.push(i);
        let deg = self.adj[i].len();
        for t in 0..deg
            invariant
                self.wf(),
                self.is_node(ii),
                ii == i as int,
                0 <= ii < self.adj.len(),
                deg == self.adj@[ii]@.len(),
                v0 == old(visiting)@,
                r0 == old(resolved)@,
                out0 == old(result).deep_view(),
                visiting@ == v0.push(i),
                self.is_ipath(v0.push(i).map_values(|x: usize| x as int)),
                v0.push(i).no_duplicates(),
                v0.push(i)[0] as int == root@,
                self.is_node(root@),
                self.resolved_ok(resolved@, result.deep_view(), root@),
                forall|j: int| 0 <= j < self.n() && #[trigger] r0[j] ==> resolved@[j],
                forall|j: int|
                    0 <= j < self.n() && #[trigger] resolved@[j] && !r0[j] ==> self.reach_i(
                        ii,
                        j,
                    ),
                forall|k: int|
                    0 <= k < v0.push(i).len() ==> !resolved@[#[trigger] v0.push(i)[k] as int],
                out0.is_prefix_of(result.deep_view()),
                forall|k: int| 0 <= k < t ==> resolved@[#[trigger] self.adj@[ii]@[k] as int],
        {
            let c = self.adj[i][t];
            proof {
                assert(self.adj@[ii]@[t as int] == c);
                assert(self.edge_i(ii, c as int));
                assert(self.is_node(c as int));
            }
            if !resolved[c] {
                match find_pos(visiting, c) {
                    Some(pos) => {
                        let ghost w = v0.push(i);
                        proof {
                            let wi = w.map_values(|x: usize| x as int);
                            assert forall|q: int| 0 <= q < w.len() implies self.is_node(
                                #[trigger] w[q] as int) by {
                                assert(wi[q] == w[q] as int);
                                assert(self.is_node(wi[q]));
                            }
                        }
                        let mut path: Vec<String> = Vec::new();
                        let vl = visiting.len();
                        for k in pos..vl
                            invariant
                                self.wf(),
                                visiting@ == w,
                                vl == w.len(),
                                (pos as int) < w.len(),
                                path.deep_view().len() == k - pos,
                                forall|q: int|
                                    0 <= q < k - pos ==> path.deep_view()[q] == self.name_of(
                                        #[trigger] w[pos + q] as int),
                                forall|q: int|
                                    0 <= q < w.len() ==> self.is_node(#[trigger] w[q] as int),
                        {
                            proof {
                                assert(self.is_node(w[k as int] as int));
                            }
                            path.push(self.names[visiting[k]].clone());
                            proof {
                                assert forall|q: int|
                                    0 <= q < k + 1 - pos implies path.deep_view()[q]
                                    == self.name_of(#[trigger] w[pos + q] as int) by {
                                    if q == k - pos {
                                        assert(path@[q] == self.names@[w[k as int] as int]);
                                    }
                                }
                            }
                        }
                        path.push(self.names[c].clone());
                        proof {
                            let dv = path.deep_view();
                            assert(dv.len() == w.len() - pos + 1);
                            assert(dv[dv.len() - 1] == self.name_of(c as int)) by {
                                assert(path@[dv.len() - 1] == self.names@[c as int]);
                            }
                            assert(w[w.len() - 1] == i);
                            self.lemma_resolve_cycle(w, pos as int, c, root@, dv);
                        }
                        return Err(DependencyError::CircularDependency(path));
                    },
                    None => {
                        proof {
                            let w = v0.push(i);
                            assert(w[w.len() - 1] == i);
                            self.lemma_stack_extend(w, c, root@);
                            assert(w.push(c).len() == v0.len() + 2);
                            assert(visiting@.len() == v0.len() + 1);
                            assert(0 <= self.n() - visiting@.len() < self.n() - v0.len());
                        }
                        let res = self.dfs_resolve(c, visiting, resolved, result, root);
                        match res {
                            Ok(()) => {
                                proof {
                                    assert(visiting@ == v0.push(i));
                                    self.lemma_reach_i_refl(ii);
                                    self.lemma_reach_i_step(ii, ii, c as int);
                                    assert forall|j: int|
                                        0 <= j < self.n() && #[trigger] resolved@[j] && !r0[j]
                                        implies self.reach_i(ii, j) by {
                                        if self.reach_i(c as int, j) {
                                            self.lemma_reach_i_trans(ii, c as int, j);
                                        }
                                    }
                                }
                            },
                            Err(e) => {
                                return Err(e);
                            },
                        }
                    },
                }
            }
        }
        visiting.pop();
        let ghost outpre = result.deep_view();
        let ghost rpre = resolved@;
        resolved.set(i, true);
        result.push(self.names[i].clone());
        proof {
            assert(visiting@ =~= v0);
            let out2 = result.deep_view();
            let nm = self.name_of(ii);
            assert(out2 =~= outpre.push(nm)) by {
                assert(result@[outpre.len() as int] == self.names@[ii]);
                assert forall|k: int| 0 <= k < outpre.len() implies out2[k] == outpre[k] by {}
            }
            self.lemma_resolve_append(
                v0,
                i,
                rpre,
                outpre,
                r0,
                out0,
                root@,
                resolved@,
                out2,
            );
        }
        Ok(())
    }

    /// Name-level walks concatenate.
    pub proof fn lemma_reaches_trans(self, a: Seq<char>, b: Seq<char>, c: Seq<char>)
        requires
            self.reaches(a, b),
            self.reaches(b, c),
        ensures
            self.reaches(a, c),
    {
        let p = choose|p: Seq<Seq<char>>| self.is_path(p) && p.first() == a && p.last() == b;
        let q = choose|q: Seq<Seq<char>>| self.is_path(q) && q.first() == b && q.last() == c;
        let r = p + q.drop_first();
        assert forall|k: int| 0 <= k < r.len() implies self.has_node(#[trigger] r[k]) by {
            if k < p.len() {
                assert(r[k] == p[k]);
            } else {
                assert(r[k] == q[k - p.len() + 1]);
            }
        }
        assert forall|k: int| 0 <= k < r.len() - 1 implies self.dep(
            #[trigger] r[k],
            r[k + 1],
        ) by {
            if k < p.len() - 1 {
                assert(r[k] == p[k] && r[k + 1] == p[k + 1]);
            } else if k == p.len() - 1 {
                assert(r[k] == p.last());
                assert(q.len() >= 2);
                assert(r[k + 1] == q[1]);
                assert(self.dep(q[0], q[1]));
            } else {
                assert(r[k] == q[k - p.len() + 1] && r[k + 1] == q[k - p.len() + 2]);
            }
        }
        assert(r.first() == a);
        assert(r.last() == c) by {
            if q.len() == 1 {
                assert(r =~= p);
            } else {
                assert(r.last() == q.last());
            }
        }
        assert(self.is_path(r));
    }

    /// Every stop on a walk is reachable from its start.
    proof fn lemma_path_prefix_reaches(self, p: Seq<Seq<char>>, k: int)
        requires
            self.is_path(p),
            0 <= k < p.len(),
        ensures
            self.reaches(p.first(), p[k]),
    {
        let pref = p.subrange(0, k + 1);
        assert forall|q: int| 0 <= q < pref.len() implies self.has_node(#[trigger] pref[q]) by {
            assert(pref[q] == p[q]);
        }
        assert forall|q: int| 0 <= q < pref.len() - 1 implies self.dep(
            #[trigger] pref[q],
            pref[q + 1],
        ) by {
            assert(pref[q] == p[q] && pref[q + 1] == p[q + 1]);
        }
        assert(self.is_path(pref));
        assert(pref.first() == p.first() && pref.last() == p[k]);
    }

    /// Along any walk whose stops all sit in a topologically ordered
    /// output, positions strictly decrease.
    proof fn lemma_topo_positions(self, out: Seq<Seq<char>>, q: Seq<Seq<char>>)
        requires
            out.no_duplicates(),
            forall|a: int, b: int|
                0 <= a < out.len() && 0 <= b < out.len() && self.dep(
                    #[trigger] out[a],
                    #[trigger] out[b],
                ) ==> b < a,
            self.is_path(q),
            forall|k: int| 0 <= k < q.len() ==> out.contains(#[trigger] q[k]),
        ensures
            q.len() >= 2 ==> pos_in(out, q.last()) < pos_in(out, q.first()),
        decreases q.len(),
    {
        if q.len() == 2 {
            assert(self.dep(q[0], q[1]));
            let a = pos_in(out, q[0]);
            let b = pos_in(out, q[1]);
            assert(out.contains(q[0]) && out.contains(q[1]));
            assert(0 <= a < out.len() && out[a] == q[0]);
            assert(0 <= b < out.len() && out[b] == q[1]);
            assert(b < a);
        } else if q.len() > 2 {
            let h = q.drop_last();
            assert forall|k: int| 0 <= k < h.len() implies self.has_node(#[trigger] h[k])
                && out.contains(h[k]) by {
                assert(h[k] == q[k]);
            }
            assert forall|k: int| 0 <= k < h.len() - 1 implies self.dep(
                #[trigger] h[k],
                h[k + 1],
            ) by {
                assert(h[k] == q[k] && h[k + 1] == q[k + 1]);
            }
            self.lemma_topo_positions(out, h);
            assert(h.first() == q.first());
            assert(h.last() == q[q.len() - 2]);
            assert(self.dep(q[q.len() - 2], q[q.len() - 1]));
            let a = pos_in(out, q[q.len() - 2]);
            let b = pos_in(out, q.last());
            assert(out.contains(q[q.len() - 2]) && out.contains(q.last()));
            assert(0 <= a < out.len() && out[a] == q[q.len() - 2]);
            assert(0 <= b < out.len() && out[b] == q.last());
            assert(b < a);
        }
    }

    /// Computes the ordered transitive dependency closure of a profile:
    /// every profile it reaches, each listed after all its own
    /// dependencies, the profile itself last.  A start missing from the
    /// graph and a live cycle met on the way are reported instead.
    pub fn resolve_dependencies(&self, profile_name: &str) -> (r: Result<
        Vec<String>,
        DependencyError,
    >)
        requires
            self.wf(),
        ensures
            match r {
                Ok(v) => {
                    let s = v.deep_view();
                    &&& self.has_node(profile_name@)
                    &&& s.len() >= 1
                    &&& s.last() == profile_name@
                    &&& s.no_duplicates()
                    &&& (forall|x: Seq<char>|
                        s.contains(x) <==> self.reaches(profile_name@, x))
                    &&& (forall|a: int, b: int|
                        0 <= a < s.len() && 0 <= b < s.len() && self.dep(
                            #[trigger] s[a],
                            #[trigger] s[b],
                        ) ==> b < a)
                    &&& !(exists|p: Seq<Seq<char>>|
                        self.is_cycle(p) && self.reaches(profile_name@, p.first()))
                },
                Err(DependencyError::ProfileNotFound(n)) => {
                    &&& n@ == profile_name@
                    &&& !self.has_node(profile_name@)
                },
                Err(DependencyError::CircularDependency(p)) => {
                    &&& self.has_node(profile_name@)
                    &&& self.is_cycle(p.deep_view())
                    &&& self.reaches(profile_name@, p.deep_view().first())
                },
                _ => false,
            },
    {
        let i = match self.find_index(profile_name) {
            Some(i) => i,
            None => {
                return Err(DependencyError::ProfileNotFound(profile_name.to_owned()));
            },
        };
        let ghost ii = i as int;
        let mut visiting: Vec<usize> = Vec::new();
        let mut resolved: Vec<bool> = Vec::new();
        let n = self.names.len();
        for t in 0..n
            invariant
                resolved.len() == t,
                forall|j: int| 0 <= j < t ==> !(#[trigger] resolved@[j]),
        {
            resolved.push(false);
        }
        let mut result: Vec<String> = Vec::new();
        proof {
            let w = visiting@.push(i);
            let wi = w.map_values(|x: usize| x as int);
            assert(wi.len() == 1 && wi[0] == ii);
            assert(self.is_ipath(wi));
            assert(w.no_duplicates());
            assert(result.deep_view() =~= Seq::<Seq<char>>::empty());
            assert(self.resolved_ok(resolved@, result.deep_view(), ii));
        }
        let res = self.dfs_resolve(i, &mut visiting, &mut resolved, &mut result, Ghost(i as int));
        match res {
            Ok(()) => {
                proof {
                    let s = result.deep_view();
                    let nm = profile_name@;
                    assert(self.name_of(ii) == nm);
                    assert(s.last() == nm);
                    // membership matches reachability, both ways
                    assert forall|x: Seq<char>| s.contains(x) implies self.reaches(nm, x) by {
                        let k = choose|k: int| 0 <= k < s.len() && s[k] == x;
                        let j = choose|j: int|
                            0 <= j < self.n() && resolved@[j] && self.name_of(j) == s[k];
                        assert(self.reach_i(ii, j));
                        self.lemma_reaches_iff(nm, x, ii, j);
                    }
                    assert forall|x: Seq<char>| self.reaches(nm, x) implies s.contains(x) by {
                        let p = choose|p: Seq<Seq<char>>|
                            self.is_path(p) && p.first() == nm && p.last() == x;
                        assert(self.has_node(x)) by {
                            assert(self.has_node(p[p.len() - 1]));
                        }
                        let jx = choose|j: int| self.is_node(j) && self.name_of(j) == x;
                        self.lemma_reaches_iff(nm, x, ii, jx);
                        let cs = Set::new(|j: int| 0 <= j < self.n() && resolved@[j]);
                        assert forall|u: int, v: int|
                            cs.contains(u) && self.edge_i(u, v) implies cs.contains(v) by {
                            assert(resolved@[u]);
                        }
                        assert(cs.contains(ii));
                        self.lemma_closed_reach(cs, ii, jx);
                        assert(resolved@[jx]);
                        assert(s.contains(self.name_of(jx)));
                    }
                    // no cycle is reachable from the start
                    if exists|p: Seq<Seq<char>>|
                        self.is_cycle(p) && self.reaches(nm, p.first()) {
                        let p = choose|p: Seq<Seq<char>>|
                            self.is_cycle(p) && self.reaches(nm, p.first());
                        assert forall|k: int| 0 <= k < p.len() implies out_contains_cycle_stop(
                            s,
                            p,
                            k,
                        ) by {
                            self.lemma_path_prefix_reaches(p, k);
                            self.lemma_reaches_trans(nm, p.first(), p[k]);
                            assert(self.reaches(nm, p[k]));
                            assert(s.contains(p[k]));
                        }
                        assert forall|k: int| 0 <= k < p.len() implies s.contains(
                            #[trigger] p[k]) by {
                            assert(out_contains_cycle_stop(s, p, k));
                        }
                        self.lemma_topo_positions(s, p);
                        assert(p.first() == p.last());
                        assert(false);
                    }
                }
                Ok(result)
            },
            Err(e) => {
                proof {
                    assert(self.name_of(ii) == profile_name@);
                }
                Err(e)
            },
        }
    }

    /// Lists every profile that declares `profile_name` as a direct
    /// dependency; empty for an isolated node, absent only when the name
    /// itself is unregistered.
    pub fn get_parents(&self, profile_name: &str) -> (r: Option<Vec<String>>)
        requires
            self.wf(),
        ensures
            match r {
                Some(v) => {
                    &&& self.has_node(profile_name@)
                    &&& v.deep_view().no_duplicates()
                    &&& (forall|x: Seq<char>|
                        v.deep_view().contains(x) <==> self.dep(x, profile_name@))
                },
                None => !self.has_node(profile_name@),
            },
    {
        let i = match self.find_index(profile_name) {
            Some(i) => i,
            None => {
                return None;
            },
        };
        let ghost ii = i as int;
        let n = self.names.len();
        let mut out: Vec<String> = Vec::new();
        for t in 0..n
            invariant
                self.wf(),
                self.is_node(ii),
                ii == i as int,
                self.name_of(ii) == profile_name@,
                n == self.names.len(),
                out.deep_view().no_duplicates(),
                forall|x: Seq<char>|
                    #[trigger] out.deep_view().contains(x) <==> exists|j: int|
                        0 <= j < t && self.is_node(j) && self.edge_i(j, ii) && self.name_of(j)
                            == x,
        {
            let ghost pre = out.deep_view();
            if self.alive[t] && self.has_edge_to(t, i) {
                out.push(self.names[t].clone());
                proof {
                    let dv = out.deep_view();
                    let nm = self.name_of(t as int);
                    assert(dv =~= pre.push(nm)) by {
                        assert(out@[pre.len() as int] == self.names@[t as int]);
                        assert forall|k: int| 0 <= k < pre.len() implies dv[k] == pre[k] by {}
                    }
                    assert(!pre.contains(nm)) by {
                        if pre.contains(nm) {
                            let j = choose|j: int|
                                0 <= j < t && self.is_node(j) && self.edge_i(j, ii)
                                    && self.name_of(j) == nm;
                            self.lemma_name_unique(j, t as int);
                        }
                    }
                    assert forall|a: int, b: int| 0 <= a < b < dv.len() implies dv[a]
                        != dv[b] by {
                        if b == dv.len() - 1 {
                            assert(dv[a] == pre[a]);
                            if pre[a] == nm {
                                assert(pre.contains(nm));
                            }
                        }
                    }
                    assert forall|x: Seq<char>| #[trigger] dv.contains(x) implies exists|j: int|
                        0 <= j < t + 1 && self.is_node(j) && self.edge_i(j, ii) && self.name_of(
                            j,
                        ) == x by {
                        let k = choose|k: int| 0 <= k < dv.len() && dv[k] == x;
                        if k < pre.len() {
                            assert(pre.contains(x));
                        } else {
                            assert(self.is_node(t as int) && self.edge_i(t as int, ii)
                                && self.name_of(t as int) == x);
                        }
                    }
                    assert forall|x: Seq<char>|
                        (exists|j: int|
                            0 <= j < t + 1 && self.is_node(j) && self.edge_i(j, ii)
                                && self.name_of(j) == x) implies #[trigger] dv.contains(x) by {
                        let j = choose|j: int|
                            0 <= j < t + 1 && self.is_node(j) && self.edge_i(j, ii)
                                && self.name_of(j) == x;
                        if j < t {
                            assert(pre.contains(x));
                            let k = choose|k: int| 0 <= k < pre.len() && pre[k] == x;
                            assert(dv[k] == x);
                        } else {
                            assert(dv[dv.len() - 1] == x);
                        }
                    }
                }
            } else {
                proof {
                    assert forall|x: Seq<char>| #[trigger] out.deep_view().contains(x) implies (
                    exists|j: int|
                        0 <= j < t + 1 && self.is_node(j) && self.edge_i(j, ii) && self.name_of(
                            j,
                        ) == x) by {
                        let j = choose|j: int|
                            0 <= j < t && self.is_node(j) && self.edge_i(j, ii) && self.name_of(
                                j,
                            ) == x;
                        assert(0 <= j < t + 1 && self.is_node(j) && self.edge_i(j, ii)
                            && self.name_of(j) == x);
                    }
                    assert forall|x: Seq<char>|
                        (exists|j: int|
                            0 <= j < t + 1 && self.is_node(j) && self.edge_i(j, ii)
                                && self.name_of(j) == x) implies #[trigger] out.deep_view()
                        .contains(x) by {
                        let j = choose|j: int|
                            0 <= j < t + 1 && self.is_node(j) && self.edge_i(j, ii)
                                && self.name_of(j) == x;
                        if j == t as int {
                            assert(self.is_node(t as int));
                            assert(!self.edge_i(t as int, ii) || !self.alive@[t as int]);
                        }
                        assert(0 <= j < t && self.is_node(j) && self.edge_i(j, ii)
                            && self.name_of(j) == x);
                    }
                }
            }
        }
        proof {
            assert forall|x: Seq<char>| #[trigger] out.deep_view().contains(x) implies self.dep(
                x,
                profile_name@,
            ) by {
                let j = choose|j: int|
                    0 <= j < n && self.is_node(j) && self.edge_i(j, ii) && self.name_of(j) == x;
                assert(self.is_node(j) && self.is_node(ii));
            }
            assert forall|x: Seq<char>| self.dep(x, profile_name@) implies out.deep_view()
                .contains(x) by {
                let (a, b) = choose|a: int, b: int|
                    {
                        &&& self.is_node(a)
                        &&& self.is_node(b)
                        &&& self.name_of(a) == x
                        &&& self.name_of(b) == profile_name@
                        &&& #[trigger] self.edge_i(a, b)
                    };
                self.lemma_name_unique(b, ii);
                assert(0 <= a < n && self.is_node(a) && self.edge_i(a, ii) && self.name_of(a)
                    == x);
            }
        }
        Some(out)
    }

    /// Removes the edge parent → child; removing an edge that is not
    /// there is a no-op, not an error, and leaves the graph untouched.
    pub fn remove_dependency(&mut self, parent: &str, child: &str) -> (r: Result<
        (),
        DependencyError,
    >)
        requires
            old(self).wf(),
        ensures
            final(self).wf(),
            forall|nm: Seq<char>| final(self).has_node(nm) == old(self).has_node(nm),
            match r {
                Ok(()) => {
                    &&& old(self).has_node(parent@)
                    &&& old(self).has_node(child@)
                    &&& (forall|x: Seq<char>, y: Seq<char>|
                        final(self).dep(x, y) == (old(self).dep(x, y) && !(x == parent@ && y
                            == child@)))
                    &&& (!old(self).dep(parent@, child@) ==> *final(self) == *old(self))
                    &&& (old(self).acyclic() ==> final(self).acyclic())
                },
                Err(DependencyError::ProfileNotFound(n)) => {
                    &&& n@ == parent@
                    &&& !old(self).has_node(parent@)
                    &&& *final(self) == *old(self)
                },
                Err(DependencyError::DependencyNotFound(a, b)) => {
                    &&& a@ == parent@
                    &&& b@ == child@
                    &&& old(self).has_node(parent@)
                    &&& !old(self).has_node(child@)
                    &&& *final(self) == *old(self)
                },
                _ => false,
            },
    {
        let pi = match self.find_index(parent) {
            Some(i) => i,
            None => {
                return Err(DependencyError::ProfileNotFound(parent.to_owned()));
            },
        };
        let ci = match self.find_index(child) {
            Some(i) => i,
            None => {
                proof {
                    assert(self.has_node(parent@));
                }
                return Err(DependencyError::DependencyNotFound(
                    parent.to_owned(),
                    child.to_owned(),
                ));
            },
        };
        proof {
            assert(self.has_node(parent@));
            assert(self.has_node(child@));
        }
        let deg = self.adj[pi].len();
        let mut at: Option<usize> = None;
        for t in 0..deg
            invariant
                self.wf(),
                self.is_node(pi as int),
                (pi as int) < self.adj.len(),
                deg == self.adj@[pi as int]@.len(),
                match at {
                    Some(k) => (k as int) < deg && self.adj@[pi as int]@[k as int] == ci,
                    None => forall|k: int|
                        0 <= k < t ==> (#[trigger] self.adj@[pi as int]@[k]) != ci,
                },
        {
            if at.is_none() && self.adj[pi][t] == ci {
                at = Some(t);
            }
        }
        match at {
            Some(k) => {
                let ghost g0 = *self;
                let mut row = self.adj.remove(pi);
                row.remove(k);
                self.adj.insert(pi, row);
                proof {
                    assert(self.adj@ =~= g0.adj@.update(pi as int, self.adj@[pi as int]));
                    assert(self.adj@[pi as int]@ =~= g0.adj@[pi as int]@.remove(k as int));
                    self.lemma_remove_edge_post(g0, pi as int, ci as int, k as int, parent@, child@);
                    assert(g0.edge_i(pi as int, ci as int));
                    assert(g0.dep(parent@, child@));
                }
                Ok(())
            },
            None => {
                proof {
                    if self.dep(parent@, child@) {
                        let (a, b) = choose|a: int, b: int|
                            {
                                &&& self.is_node(a)
                                &&& self.is_node(b)
                                &&& self.name_of(a) == parent@
                                &&& self.name_of(b) == child@
                                &&& #[trigger] self.edge_i(a, b)
                            };
                        self.lemma_name_unique(a, pi as int);
                        self.lemma_name_unique(b, ci as int);
                        let kk = choose|kk: int|
                            0 <= kk < self.adj@[pi as int]@.len() && self.adj@[pi as int]@[
                            kk] as int == ci as int;
                        assert(self.adj@[pi as int]@[kk] != ci);
                    }
                    assert(!self.dep(parent@, child@));
                    assert forall|x: Seq<char>, y: Seq<char>|
                        self.dep(x, y) == (self.dep(x, y) && !(x == parent@ && y
                            == child@)) by {
                        if x == parent@ && y == child@ {
                            assert(!self.dep(x, y));
                        }
                    }
                }
                Ok(())
            },
        }
    }

    /// After dropping one entry of slot `pi`'s adjacency list, the graph
    /// is the old graph minus that one edge.
    proof fn lemma_remove_edge_post(
        self,
        g0: Self,
        pi: int,
        ci: int,
        k: int,
        pn: Seq<char>,
        cn: Seq<char>,
    )
        requires
            g0.wf(),
            g0.is_node(pi),
            g0.is_node(ci),
            g0.name_of(pi) == pn,
            g0.name_of(ci) == cn,
            0 <= k < g0.adj@[pi]@.len(),
            g0.adj@[pi]@[k] as int == ci,
            self.names == g0.names,
            self.alive == g0.alive,
            self.adj@.len() == g0.adj@.len(),
            self.adj@[pi]@ =~= g0.adj@[pi]@.remove(k),
            forall|i: int| 0 <= i < g0.adj@.len() && i != pi ==> self.adj@[i] == g0.adj@[i],
        ensures
            self.wf(),
            forall|nm: Seq<char>| self.has_node(nm) == g0.has_node(nm),
            forall|x: Seq<char>, y: Seq<char>|
                self.dep(x, y) == (g0.dep(x, y) && !(x == pn && y == cn)),
            g0.acyclic() ==> self.acyclic(),
    {
        let g1 = self;
        assert forall|i: int| #[trigger] g1.is_node(i) == g0.is_node(i) by {}
        let row0 = g0.adj@[pi]@;
        let row1 = g1.adj@[pi]@;
        assert forall|x: int, y: int|
            #[trigger] g1.edge_i(x, y) == (g0.edge_i(x, y) && !(x == pi && y == ci)) by {
            if x == pi {
                if g1.edge_i(x, y) {
                    let t = choose|t: int| 0 <= t < row1.len() && row1[t] as int == y;
                    let t0 = if t < k {
                        t
                    } else {
                        t + 1
                    };
                    assert(row1[t] == row0[t0]);
                    assert(g0.edge_i(x, y));
                    if y == ci {
                        assert(row0[t0] == row0[k]);
                    }
                }
                if g0.edge_i(x, y) && y != ci {
                    let t = choose|t: int| 0 <= t < row0.len() && row0[t] as int == y;
                    assert(row0[t] != row0[k]);
                    assert(t != k);
                    let t1 = if t < k {
                        t
                    } else {
                        t - 1
                    };
                    assert(row1[t1] == row0[t]);
                    assert(g1.edge_i(x, y));
                }
            } else {
                if g1.edge_i(x, y) {
                    assert(g1.adj@[x] == g0.adj@[x]);
                }
                if g0.edge_i(x, y) {
                    assert(g1.adj@[x] == g0.adj@[x]);
                }
            }
        }
        assert forall|i: int|
            0 <= i < g1.n() && !g1.alive@[i] implies g1.adj@[i]@.len() == 0 by {
            if i != pi {
                assert(g1.adj@[i] == g0.adj@[i]);
            } else {
                assert(g0.is_node(pi));
            }
        }
        assert forall|i: int, t: int|
            0 <= i < g1.n() && 0 <= t < g1.adj@[i]@.len() implies g1.is_node(
            #[trigger] g1.adj@[i]@[t] as int) by {
            if i == pi {
                let t0 = if t < k {
                    t
                } else {
                    t + 1
                };
                assert(row1[t] == row0[t0]);
                assert(g0.is_node(g0.adj@[i]@[t0] as int));
            } else {
                assert(g1.adj@[i] == g0.adj@[i]);
                assert(g0.is_node(g0.adj@[i]@[t] as int));
            }
        }
        assert forall|i: int| 0 <= i < g1.n() implies (#[trigger] g1.adj@[i]@).no_duplicates() by {
            if i == pi {
                assert forall|a: int, b: int| 0 <= a < b < row1.len() implies row1[a]
                    != row1[b] by {
                    let a0 = if a < k {
                        a
                    } else {
                        a + 1
                    };
                    let b0 = if b < k {
                        b
                    } else {
                        b + 1
                    };
                    assert(row1[a] == row0[a0] && row1[b] == row0[b0]);
                }
            } else {
                assert(g1.adj@[i] == g0.adj@[i]);
            }
        }
        assert forall|a: int, b: int|
            0 <= a < b < g1.n() && g1.alive@[a] && g1.alive@[b] implies g1.name_of(a)
            != g1.name_of(b) by {
            assert(g0.name_of(a) != g0.name_of(b));
        }
        assert(g1.wf());
        assert forall|nm: Seq<char>| g1.has_node(nm) == g0.has_node(nm) by {
            if g1.has_node(nm) {
                let i = choose|i: int| g1.is_node(i) && g1.name_of(i) == nm;
                assert(g0.is_node(i) && g0.name_of(i) == nm);
            }
            if g0.has_node(nm) {
                let i = choose|i: int| g0.is_node(i) && g0.name_of(i) == nm;
                assert(g1.is_node(i) && g1.name_of(i) == nm);
            }
        }
        assert forall|x: Seq<char>, y: Seq<char>|
            g1.dep(x, y) == (g0.dep(x, y) && !(x == pn && y == cn)) by {
            if g1.dep(x, y) {
                let (i, j) = choose|i: int, j: int|
                    {
                        &&& g1.is_node(i)
                        &&& g1.is_node(j)
                        &&& g1.name_of(i) == x
                        &&& g1.name_of(j) == y
                        &&& #[trigger] g1.edge_i(i, j)
                    };
                assert(g0.edge_i(i, j));
                assert(g0.dep(x, y));
                if x == pn && y == cn {
                    g0.lemma_name_unique(i, pi);
                    g0.lemma_name_unique(j, ci);
                    assert(!g1.edge_i(i, j));
                }
            }
            if g0.dep(x, y) && !(x == pn && y == cn) {
                let (i, j) = choose|i: int, j: int|
                    {
                        &&& g0.is_node(i)
                        &&& g0.is_node(j)
                        &&& g0.name_of(i) == x
                        &&& g0.name_of(j) == y
                        &&& #[trigger] g0.edge_i(i, j)
                    };
                if i == pi && j == ci {
                    assert(x == pn && y == cn);
                }
                assert(g1.edge_i(i, j));
                assert(g1.dep(x, y));
            }
        }
        if g0.acyclic() {
            assert forall|p: Seq<Seq<char>>| !g1.is_cycle(p) by {
                if g1.is_cycle(p) {
                    assert forall|t: int| 0 <= t < p.len() implies g0.has_node(
                        #[trigger] p[t]) by {
                        assert(g1.has_node(p[t]));
                    }
                    assert forall|t: int| 0 <= t < p.len() - 1 implies g0.dep(
                        #[trigger] p[t],
                        p[t + 1],
                    ) by {
                        assert(g1.dep(p[t], p[t + 1]));
                    }
                    assert(g0.is_cycle(p));
                }
            }
        }
    }

    /// Relabels a node in place: the topology is untouched, so every
    /// dependent of the old name now depends on the new name.
    pub fn rename_node(&mut self, old_name: &str, new_name: String) -> (r: Result<
        (),
        DependencyError,
    >)
        requires
            old(self).wf(),
            old(self).has_node(old_name@) && new_name@ != old_name@ ==> !old(self).has_node(
                new_name@,
            ),
        ensures
            final(self).wf(),
            match r {
                Ok(()) => {
                    &&& old(self).has_node(old_name@)
                    &&& (forall|nm: Seq<char>|
                        final(self).has_node(nm) == (nm == new_name@ || (old(self).has_node(nm)
                            && nm != old_name@)))
                    &&& (forall|x: Seq<char>, y: Seq<char>|
                        final(self).dep(x, y) == if new_name@ == old_name@ {
                            old(self).dep(x, y)
                        } else {
                            x != old_name@ && y != old_name@ && old(self).dep(
                                rename_src(x, new_name@, old_name@),
                                rename_src(y, new_name@, old_name@),
                            )
                        })
                    &&& (forall|x: Seq<char>|
                        x != old_name@ && x != new_name@ ==> (final(self).dep(x, new_name@)
                            == old(self).dep(x, old_name@)))
                },
                Err(DependencyError::ProfileNotFound(n)) => {
                    &&& n@ == old_name@
                    &&& !old(self).has_node(old_name@)
                    &&& *final(self) == *old(self)
                },
                _ => false,
            },
    {
        let i = match self.find_index(old_name) {
            Some(i) => i,
            None => {
                return Err(DependencyError::ProfileNotFound(old_name.to_owned()));
            },
        };
        if str_eq(old_name, new_name.as_str()) {
            proof {
                assert(old_name@ == new_name@);
            }
            return Ok(());
        }
        let ghost g0 = *self;
        self.names.set(i, new_name);
        proof {
            self.lemma_rename_post(g0, i as int, old_name@, new_name@);
        }
        Ok(())
    }

    /// After overwriting one live slot's name, node membership and the
    /// dependency relation follow the relabeling.
    proof fn lemma_rename_post(self, g0: Self, i: int, on: Seq<char>, nn: Seq<char>)
        requires
            g0.wf(),
            g0.is_node(i),
            g0.name_of(i) == on,
            !g0.has_node(nn),
            nn != on,
            self.alive == g0.alive,
            self.adj == g0.adj,
            self.names@.len() == g0.names@.len(),
            self.names@[i]@ == nn,
            forall|t: int| 0 <= t < g0.names@.len() && t != i ==> self.names@[t] == g0.names@[t],
        ensures
            self.wf(),
            forall|nm: Seq<char>|
                self.has_node(nm) == (nm == nn || (g0.has_node(nm) && nm != on)),
            forall|x: Seq<char>, y: Seq<char>|
                self.dep(x, y) == (x != on && y != on && g0.dep(
                    rename_src(x, nn, on),
                    rename_src(y, nn, on),
                )),
            forall|x: Seq<char>|
                x != on && x != nn ==> (self.dep(x, nn) == g0.dep(x, on)),
    {
        let g1 = self;
        assert forall|t: int| #[trigger] g1.is_node(t) == g0.is_node(t) by {}
        assert forall|t: int|
            g0.is_node(t) && t != i implies #[trigger] g1.name_of(t) == g0.name_of(t) by {}
        assert(g1.name_of(i) == nn);
        assert forall|x: int, y: int| #[trigger] g1.edge_i(x, y) == g0.edge_i(x, y) by {}
        assert forall|a: int, b: int|
            0 <= a < b < g1.n() && g1.alive@[a] && g1.alive@[b] implies g1.name_of(a)
            != g1.name_of(b) by {
            if a != i && b != i {
                assert(g0.name_of(a) != g0.name_of(b));
            } else if a == i {
                assert(g1.name_of(b) == g0.name_of(b));
                if g0.name_of(b) == nn {
                    assert(g0.is_node(b) && g0.name_of(b) == nn);
                }
            } else {
                assert(g1.name_of(a) == g0.name_of(a));
                if g0.name_of(a) == nn {
                    assert(g0.is_node(a) && g0.name_of(a) == nn);
                }
            }
        }
        assert(g1.wf());
        assert forall|nm: Seq<char>|
            g1.has_node(nm) == (nm == nn || (g0.has_node(nm) && nm != on)) by {
            if g1.has_node(nm) {
                let t = choose|t: int| g1.is_node(t) && g1.name_of(t) == nm;
                if t == i {
                } else {
                    assert(g0.is_node(t) && g0.name_of(t) == nm);
                    if nm == on {
                        g0.lemma_name_unique(t, i);
                    }
                }
            }
            if nm == nn {
                assert(g1.is_node(i) && g1.name_of(i) == nn);
            } else if g0.has_node(nm) && nm != on {
                let t = choose|t: int| g0.is_node(t) && g0.name_of(t) == nm;
                assert(t != i);
                assert(g1.is_node(t) && g1.name_of(t) == nm);
            }
        }
        assert forall|x: Seq<char>, y: Seq<char>|
            g1.dep(x, y) == (x != on && y != on && g0.dep(
                rename_src(x, nn, on),
                rename_src(y, nn, on),
            )) by {
            if g1.dep(x, y) {
                let (a, b) = choose|a: int, b: int|
                    {
                        &&& g1.is_node(a)
                        &&& g1.is_node(b)
                        &&& g1.name_of(a) == x
                        &&& g1.name_of(b) == y
                        &&& #[trigger] g1.edge_i(a, b)
                    };
                assert(g0.edge_i(a, b));
                if a == i {
                    assert(x == nn);
                } else {
                    assert(g0.name_of(a) == x);
                    if x == on {
                        g0.lemma_name_unique(a, i);
                    }
                }
                if b == i {
                    assert(y == nn);
                } else {
                    assert(g0.name_of(b) == y);
                    if y == on {
                        g0.lemma_name_unique(b, i);
                    }
                }
                assert(g0.name_of(a) == rename_src(x, nn, on)) by {
                    if a == i {
                    } else {
                        if x == nn {
                            assert(g0.is_node(a) && g0.name_of(a) == nn);
                        }
                    }
                }
                assert(g0.name_of(b) == rename_src(y, nn, on)) by {
                    if b == i {
                    } else {
                        if y == nn {
                            assert(g0.is_node(b) && g0.name_of(b) == nn);
                        }
                    }
                }
                assert(g0.dep(rename_src(x, nn, on), rename_src(y, nn, on)));
            }
            if x != on && y != on && g0.dep(rename_src(x, nn, on), rename_src(y, nn, on)) {
                let (a, b) = choose|a: int, b: int|
                    {
                        &&& g0.is_node(a)
                        &&& g0.is_node(b)
                        &&& g0.name_of(a) == rename_src(x, nn, on)
                        &&& g0.name_of(b) == rename_src(y, nn, on)
                        &&& #[trigger] g0.edge_i(a, b)
                    };
                assert(g1.edge_i(a, b));
                assert(g1.name_of(a) == x) by {
                    if x == nn {
                        g0.lemma_name_unique(a, i);
                    } else {
                        assert(a != i);
                    }
                }
                assert(g1.name_of(b) == y) by {
                    if y == nn {
                        g0.lemma_name_unique(b, i);
                    } else {
                        assert(b != i);
                    }
                }
                assert(g1.dep(x, y));
            }
        }
        assert forall|x: Seq<char>|
            x != on && x != nn implies (g1.dep(x, nn) == g0.dep(x, on)) by {
            assert(rename_src(x, nn, on) == x);
            assert(rename_src(nn, nn, on) == on);
        }
    }

    /// Unregisters a node together with every edge at either of its ends.
    pub fn remove_node(&mut self, name: &str) -> (r: Result<(), DependencyError>)
        requires
            old(self).wf(),
        ensures
            final(self).wf(),
            match r {
                Ok(()) => {
                    &&& old(self).has_node(name@)
                    &&& (forall|nm: Seq<char>|
                        final(self).has_node(nm) == (old(self).has_node(nm) && nm != name@))
                    &&& (forall|x: Seq<char>, y: Seq<char>|
                        final(self).dep(x, y) == (old(self).dep(x, y) && x != name@ && y
                            != name@))
                    &&& (old(self).acyclic() ==> final(self).acyclic())
                },
                Err(DependencyError::ProfileNotFound(n)) => {
                    &&& n@ == name@
                    &&& !old(self).has_node(name@)
                    &&& *final(self) == *old(self)
                },
                _ => false,
            },
    {
        let i = match self.find_index(name) {
            Some(i) => i,
            None => {
                return Err(DependencyError::ProfileNotFound(name.to_owned()));
            },
        };
        let ghost g0 = *self;
        let ghost ii = i as int;
        self.alive.set(i, false);
        let n = self.adj.len();
        for t in 0..n
            invariant
                g0.wf(),
                g0.is_node(ii),
                ii == i as int,
                g0.name_of(ii) == name@,
                n == g0.adj@.len(),
                self.names == g0.names,
                self.alive@ == g0.alive@.update(ii, false),
                self.adj@.len() == n,
                forall|q: int|
                    0 <= q < t ==> (#[trigger] self.adj@[q]@).no_duplicates(),
                forall|q: int, j: int|
                    0 <= q < t ==> (#[trigger] row_has(self.adj@[q]@, j) <==> (row_has(
                        g0.adj@[q]@,
                        j,
                    ) && j != ii && q != ii)),
                forall|q: int| t <= q < n ==> #[trigger] self.adj@[q] == g0.adj@[q],
        {
            let row = self.adj.remove(t);
            let mut nrow: Vec<usize> = Vec::new();
            if t != i {
                let m = row.len();
                for k in 0..m
                    invariant
                        m == row@.len(),
                        nrow@.no_duplicates(),
                        row@.no_duplicates(),
                        ii == i as int,
                        forall|j: int|
                            #[trigger] row_has(nrow@, j) <==> (row_has_upto(row@, k as int, j)
                                && j != ii),
                {
                    let ghost npre = nrow@;
                    if row[k] != i {
                        nrow.push(row[k]);
                    }
                    proof {
                        let x = row@[k as int];
                        if x != i {
                            assert(nrow@ == npre.push(x));
                            assert(nrow@[nrow@.len() - 1] == x);
                            assert forall|a: int, b: int|
                                0 <= a < b < nrow@.len() implies nrow@[a] != nrow@[b] by {
                                if b == nrow@.len() - 1 {
                                    assert(nrow@[a] == npre[a]);
                                    if npre[a] == x {
                                        assert(row_has(npre, x as int));
                                        let q = choose|q: int|
                                            0 <= q < k && row@[q] as int == x as int;
                                        assert(row@[q] == row@[k as int]);
                                    }
                                }
                            }
                            assert forall|j: int|
                                #[trigger] row_has(nrow@, j) implies (row_has_upto(
                                row@,
                                k + 1,
                                j,
                            ) && j != ii) by {
                                let q = choose|q: int|
                                    0 <= q < nrow@.len() && (#[trigger] nrow@[q] as int) == j;
                                if q < npre.len() {
                                    assert(row_has(npre, j));
                                    assert(row_has_upto(row@, k as int, j));
                                    let q2 = choose|q2: int|
                                        0 <= q2 < k && (#[trigger] row@[q2] as int) == j;
                                    assert((row@[q2] as int) == j && q2 < k + 1);
                                } else {
                                    assert((row@[k as int] as int) == j);
                                }
                            }
                            assert forall|j: int|
                                (row_has_upto(row@, k + 1, j) && j != ii) implies #[trigger] row_has(
                                nrow@,
                                j,
                            ) by {
                                let q = choose|q: int|
                                    0 <= q < k + 1 && (#[trigger] row@[q] as int) == j;
                                if q < k {
                                    assert(row_has_upto(row@, k as int, j));
                                    assert(row_has(npre, j));
                                    let q2 = choose|q2: int|
                                        0 <= q2 < npre.len() && (#[trigger] npre[q2] as int)
                                            == j;
                                    assert((nrow@[q2] as int) == j);
                                } else {
                                    assert((nrow@[nrow@.len() - 1] as int) == j);
                                }
                            }
                        } else {
                            assert forall|j: int|
                                #[trigger] row_has(nrow@, j) implies (row_has_upto(
                                row@,
                                k + 1,
                                j,
                            ) && j != ii) by {
                                let q = choose|q: int|
                                    0 <= q < nrow@.len() && (#[trigger] nrow@[q] as int) == j;
                                assert(row_has(npre, j));
                                assert(row_has_upto(row@, k as int, j));
                                let q2 = choose|q2: int|
                                    0 <= q2 < k && (#[trigger] row@[q2] as int) == j;
                                assert((row@[q2] as int) == j && q2 < k + 1);
                            }
                            assert forall|j: int|
                                (row_has_upto(row@, k + 1, j) && j != ii) implies #[trigger] row_has(
                                nrow@,
                                j,
                            ) by {
                                let q = choose|q: int|
                                    0 <= q < k + 1 && (#[trigger] row@[q] as int) == j;
                                assert(q < k);
                                assert(row_has_upto(row@, k as int, j));
                                assert(row_has(npre, j));
                                let q2 = choose|q2: int|
                                    0 <= q2 < npre.len() && (#[trigger] npre[q2] as int) == j;
                                assert((nrow@[q2] as int) == j);
                            }
                        }
                    }
                }
            }
            self.adj.insert(t, nrow);
            proof {
                assert(self.adj@.len() == n);
                assert forall|q: int| t + 1 <= q < n implies #[trigger] self.adj@[q]
                    == g0.adj@[q] by {}
                assert(self.adj@[t as int] == nrow);
                if t == i {
                    assert(self.adj@[t as int]@.len() == 0);
                    assert forall|j: int| !(#[trigger] row_has(self.adj@[t as int]@, j)) by {
                        if row_has(self.adj@[t as int]@, j) {
                            let q = choose|q: int|
                                0 <= q < self.adj@[t as int]@.len() && (#[trigger] self.adj@[
                                t as int]@[q] as int) == j;
                        }
                    }
                } else {
                    assert(row@.len() == g0.adj@[t as int]@.len());
                    assert forall|j: int|
                        #[trigger] row_has(self.adj@[t as int]@, j) <==> (row_has(
                            g0.adj@[t as int]@,
                            j,
                        ) && j != ii && t as int != ii) by {
                        assert(row_has(nrow@, j) <==> (row_has_upto(row@, row@.len() as int, j)
                            && j != ii));
                        assert(row@ == g0.adj@[t as int]@);
                        assert(row_has_upto(row@, row@.len() as int, j) <==> row_has(
                            row@,
                            j,
                        )) by {
                            if row_has_upto(row@, row@.len() as int, j) {
                                let q = choose|q: int|
                                    0 <= q < row@.len() && (#[trigger] row@[q] as int) == j;
                                assert(row_has(row@, j));
                            }
                            if row_has(row@, j) {
                                let q = choose|q: int|
                                    0 <= q < row@.len() && (#[trigger] row@[q] as int) == j;
                                assert(row_has_upto(row@, row@.len() as int, j));
                            }
                        }
                    }
                }
            }
        }
        proof {
            self.lemma_remove_node_post(g0, ii, name@);
        }
        Ok(())
    }

    /// After flagging slot `i` dead and purging it from every adjacency
    /// list, the graph is the old graph without that node.
    proof fn lemma_remove_node_post(self, g0: Self, i: int, nm: Seq<char>)
        requires
            g0.wf(),
            g0.is_node(i),
            g0.name_of(i) == nm,
            self.names == g0.names,
            self.alive@ == g0.alive@.update(i, false),
            self.adj@.len() == g0.adj@.len(),
            forall|q: int|
                0 <= q < g0.adj@.len() ==> (#[trigger] self.adj@[q]@).no_duplicates(),
            forall|q: int, j: int|
                0 <= q < g0.adj@.len() ==> (#[trigger] row_has(self.adj@[q]@, j) <==> (row_has(
                    g0.adj@[q]@,
                    j,
                ) && j != i && q != i)),
        ensures
            self.wf(),
            forall|x: Seq<char>| self.has_node(x) == (g0.has_node(x) && x != nm),
            forall|x: Seq<char>, y: Seq<char>|
                self.dep(x, y) == (g0.dep(x, y) && x != nm && y != nm),
            g0.acyclic() ==> self.acyclic(),
    {
        let g1 = self;
        assert forall|t: int| #[trigger] g1.is_node(t) == (g0.is_node(t) && t != i) by {}
        assert forall|x: int, y: int|
            #[trigger] g1.edge_i(x, y) == (g0.edge_i(x, y) && x != i && y != i) by {
            if 0 <= x < g0.adj@.len() {
                if g1.edge_i(x, y) {
                    let k = choose|k: int|
                        0 <= k < g1.adj@[x]@.len() && (#[trigger] g1.adj@[x]@[k] as int) == y;
                    assert(row_has(g1.adj@[x]@, y));
                    assert(row_has(g0.adj@[x]@, y) && y != i && x != i);
                    let k2 = choose|k2: int|
                        0 <= k2 < g0.adj@[x]@.len() && (#[trigger] g0.adj@[x]@[k2] as int) == y;
                    assert(g0.edge_i(x, y));
                }
                if g0.edge_i(x, y) && x != i && y != i {
                    let k = choose|k: int|
                        0 <= k < g0.adj@[x]@.len() && (#[trigger] g0.adj@[x]@[k] as int) == y;
                    assert(row_has(g0.adj@[x]@, y));
                    assert(row_has(g1.adj@[x]@, y));
                    let k2 = choose|k2: int|
                        0 <= k2 < g1.adj@[x]@.len() && (#[trigger] g1.adj@[x]@[k2] as int) == y;
                    assert(g1.edge_i(x, y));
                }
            }
        }
        assert forall|a: int, b: int|
            0 <= a < b < g1.n() && g1.alive@[a] && g1.alive@[b] implies g1.name_of(a)
            != g1.name_of(b) by {
            assert(g0.alive@[a] && g0.alive@[b]);
            assert(g0.name_of(a) != g0.name_of(b));
        }
        assert forall|q: int|
            0 <= q < g1.n() && !g1.alive@[q] implies g1.adj@[q]@.len() == 0 by {
            if g1.adj@[q]@.len() > 0 {
                let j = g1.adj@[q]@[0] as int;
                assert(row_has(g1.adj@[q]@, j));
                assert(row_has(g0.adj@[q]@, j) && j != i && q != i);
                assert(!g0.alive@[q]);
                let k = choose|k: int|
                    0 <= k < g0.adj@[q]@.len() && (#[trigger] g0.adj@[q]@[k] as int) == j;
                assert(g0.adj@[q]@.len() == 0);
            }
        }
        assert forall|q: int, k: int|
            0 <= q < g1.n() && 0 <= k < g1.adj@[q]@.len() implies g1.is_node(
            #[trigger] g1.adj@[q]@[k] as int) by {
            let j = g1.adj@[q]@[k] as int;
            assert(row_has(g1.adj@[q]@, j));
            assert(row_has(g0.adj@[q]@, j) && j != i);
            let k2 = choose|k2: int|
                0 <= k2 < g0.adj@[q]@.len() && (#[trigger] g0.adj@[q]@[k2] as int) == j;
            assert(g0.is_node(g0.adj@[q]@[k2] as int));
        }
        assert(g1.wf());
        assert forall|x: Seq<char>| g1.has_node(x) == (g0.has_node(x) && x != nm) by {
            if g1.has_node(x) {
                let t = choose|t: int| g1.is_node(t) && g1.name_of(t) == x;
                assert(g0.is_node(t) && g0.name_of(t) == x);
                if x == nm {
                    g0.lemma_name_unique(t, i);
                }
            }
            if g0.has_node(x) && x != nm {
                let t = choose|t: int| g0.is_node(t) && g0.name_of(t) == x;
                assert(t != i);
                assert(g1.is_node(t) && g1.name_of(t) == x);
            }
        }
        assert forall|x: Seq<char>, y: Seq<char>|
            g1.dep(x, y) == (g0.dep(x, y) && x != nm && y != nm) by {
            if g1.dep(x, y) {
                let (a, b) = choose|a: int, b: int|
                    {
                        &&& g1.is_node(a)
                        &&& g1.is_node(b)
                        &&& g1.name_of(a) == x
                        &&& g1.name_of(b) == y
                        &&& #[trigger] g1.edge_i(a, b)
                    };
                assert(g0.edge_i(a, b));
                assert(g0.dep(x, y));
                if x == nm {
                    g0.lemma_name_unique(a, i);
                }
                if y == nm {
                    g0.lemma_name_unique(b, i);
                }
            }
            if g0.dep(x, y) && x != nm && y != nm {
                let (a, b) = choose|a: int, b: int|
                    {
                        &&& g0.is_node(a)
                        &&& g0.is_node(b)
                        &&& g0.name_of(a) == x
                        &&& g0.name_of(b) == y
                        &&& #[trigger] g0.edge_i(a, b)
                    };
                assert(a != i && b != i) by {
                    if a == i {
                        assert(g0.name_of(i) == nm);
                    }
                    if b == i {
                        assert(g0.name_of(i) == nm);
                    }
                }
                assert(g1.edge_i(a, b));
                assert(g1.is_node(a) && g1.is_node(b));
                assert(g1.dep(x, y));
            }
        }
        if g0.acyclic() {
            assert forall|p: Seq<Seq<char>>| !g1.is_cycle(p) by {
                if g1.is_cycle(p) {
                    assert forall|t: int| 0 <= t < p.len() implies g0.has_node(
                        #[trigger] p[t]) by {
                        assert(g1.has_node(p[t]));
                    }
                    assert forall|t: int| 0 <= t < p.len() - 1 implies g0.dep(
                        #[trigger] p[t],
                        p[t + 1],
                    ) by {
                        assert(g1.dep(p[t], p[t + 1]));
                    }
                    assert(g0.is_cycle(p));
                }
            }
        }
    }

    /// Searches depth-first for any walk from `start_node` to `end_node`
    /// of at least one edge; used for cycle diagnostics, so the walk found
    /// need not be the shortest.
    pub fn find_path(&self, start_node: &str, end_node: &str) -> (r: Option<Vec<String>>)
        requires
            self.wf(),
        ensures
            match r {
                Some(v) => {
                    let dv = v.deep_view();
                    &&& start_node@ != end_node@
                    &&& self.is_path(dv)
                    &&& dv.len() >= 2
                    &&& dv.first() == start_node@
                    &&& dv.last() == end_node@
                    &&& dv.no_duplicates()
                },
                None => start_node@ == end_node@ || !self.has_node(start_node@)
                    || !self.has_node(end_node@) || !self.reaches_plus(start_node@, end_node@),
            },
    {
        let si = match self.find_index(start_node) {
            Some(i) => i,
            None => {
                return None;
            },
        };
        let ei = match self.find_index(end_node) {
            Some(i) => i,
            None => {
                return None;
            },
        };
        if si != ei {
            let (visited, par, rank) = self.search_from(si);
            if visited[ei] {
                let ip = self.build_ipath(&visited, &par, &rank, si, ei);
                let out = self.ipath_to_names(&ip);
                proof {
                    let dv = out.deep_view();
                    assert(dv[0] == self.name_of(ip@[0] as int));
                    assert(dv.last() == self.name_of(ip@[ip@.len() - 1] as int));
                    assert(dv.len() >= 2) by {
                        if dv.len() == 1 {
                            assert(ip@[0] == si && ip@[0] == ei);
                        }
                    }
                    assert(dv.no_duplicates());
                    assert(start_node@ != end_node@) by {
                        if start_node@ == end_node@ {
                            self.lemma_name_unique(si as int, ei as int);
                        }
                    }
                }
                return Some(out);
            }
            proof {
                assert(!self.reach_i(si as int, ei as int));
                self.lemma_reaches_iff(start_node@, end_node@, si as int, ei as int);
                if self.reaches_plus(start_node@, end_node@) {
                    let p = choose|p: Seq<Seq<char>>|
                        self.is_path(p) && p.len() >= 2 && p.first() == start_node@ && p.last()
                            == end_node@;
                    assert(self.reaches(start_node@, end_node@));
                }
            }
            return None;
        }
        // a walk from a node back to itself is never reported: the
        // original path finder behaves the same way, its visited set
        // already holding the start
        proof {
            assert(self.name_of(si as int) == start_node@);
            assert(self.name_of(ei as int) == end_node@);
            assert(start_node@ == end_node@);
        }
        None
    }
    /// Builds a graph from an explicit node list and edge list, checking
    /// only that every edge endpoint is listed — not acyclicity.  This is
    /// how a fixture for the resolver's own cycle detection is put
    /// together.
    pub fn from_parts(names: &Vec<String>, edges: &Vec<(String, String)>) -> (r: Option<
        ProfileGraph,
    >)
        ensures
            match r {
                Some(g) => {
                    &&& g.wf()
                    &&& (forall|nm: Seq<char>|
                        g.has_node(nm) == names.deep_view().contains(nm))
                    &&& (forall|x: Seq<char>, y: Seq<char>|
                        g.dep(x, y) == pair_listed_upto(
                            edges.deep_view(),
                            edges.deep_view().len() as int,
                            x,
                            y,
                        ))
                },
                None => exists|k: int|
                    0 <= k < edges.deep_view().len() && !(names.deep_view().contains(
                        (#[trigger] edges.deep_view()[k]).0,
                    ) && names.deep_view().contains(edges.deep_view()[k].1)),
            },
    {
        let ghost ndv = names.deep_view();
        let ghost edv = edges.deep_view();
        let mut g = ProfileGraph::new();
        let nn = names.len();
        for t in 0..nn
            invariant
                ndv == names.deep_view(),
                nn == names@.len(),
                g.wf(),
                forall|x: Seq<char>, y: Seq<char>| !g.dep(x, y),
                forall|nm: Seq<char>|
                    g.has_node(nm) == exists|k: int| 0 <= k < t && #[trigger] ndv[k] == nm,
        {
            g.add_node(names[t].clone());
            proof {
                assert(ndv[t as int] == names@[t as int]@);
                assert forall|nm: Seq<char>|
                    g.has_node(nm) == exists|k: int|
                        0 <= k < t + 1 && #[trigger] ndv[k] == nm by {
                    if g.has_node(nm) {
                        if nm == ndv[t as int] {
                            assert(ndv[t as int] == nm);
                        } else {
                            let k = choose|k: int| 0 <= k < t && #[trigger] ndv[k] == nm;
                            assert(ndv[k] == nm);
                        }
                    }
                    if exists|k: int| 0 <= k < t + 1 && #[trigger] ndv[k] == nm {
                        let k = choose|k: int| 0 <= k < t + 1 && #[trigger] ndv[k] == nm;
                        if k < t {
                            assert(exists|k2: int| 0 <= k2 < t && #[trigger] ndv[k2] == nm);
                        }
                    }
                }
            }
        }
        proof {
            assert forall|nm: Seq<char>| g.has_node(nm) == ndv.contains(nm) by {}
        }
        let ne = edges.len();
        for t in 0..ne
            invariant
                ndv == names.deep_view(),
                edv == edges.deep_view(),
                ne == edges@.len(),
                g.wf(),
                forall|nm: Seq<char>| g.has_node(nm) == ndv.contains(nm),
                forall|x: Seq<char>, y: Seq<char>|
                    g.dep(x, y) == pair_listed_upto(edv, t as int, x, y),
        {
            let pn = &edges[t].0;
            let cn = &edges[t].1;
            proof {
                assert(edv[t as int] == (edges@[t as int].0@, edges@[t as int].1@));
            }
            let pi = match g.find_index(pn.as_str()) {
                Some(i) => i,
                None => {
                    proof {
                        assert(!ndv.contains(edv[t as int].0));
                    }
                    return None;
                },
            };
            let ci = match g.find_index(cn.as_str()) {
                Some(i) => i,
                None => {
                    proof {
                        assert(!ndv.contains(edv[t as int].1));
                    }
                    return None;
                },
            };
            let ghost g0 = g;
            if !g.has_edge_to(pi, ci) {
                let mut row = g.adj.remove(pi);
                row.push(ci);
                g.adj.insert(pi, row);
                proof {
                    assert(g.adj@ =~= g0.adj@.update(pi as int, g.adj@[pi as int]));
                    assert(g.adj@[pi as int]@ =~= g0.adj@[pi as int]@.push(ci));
                    assert(g.names == g0.names);
                    assert(g.alive == g0.alive);
                    g.lemma_add_edge_post(g0, pi as int, ci as int, pn@, cn@);
                }
            }
            proof {
                assert(g.dep(edv[t as int].0, edv[t as int].1)) by {
                    if g == g0 {
                        assert(g0.edge_i(pi as int, ci as int));
                        assert(g0.dep(pn@, cn@));
                    }
                }
                assert forall|x: Seq<char>, y: Seq<char>|
                    g.dep(x, y) == pair_listed_upto(edv, t + 1, x, y) by {
                    if g.dep(x, y) {
                        if g0.dep(x, y) {
                            assert(pair_listed_upto(edv, t as int, x, y));
                            let k = choose|k: int| 0 <= k < t && #[trigger] edv[k] == (x, y);
                            assert(edv[k] == (x, y));
                        } else {
                            assert(x == pn@ && y == cn@);
                            assert(edv[t as int] == (x, y));
                        }
                    }
                    if pair_listed_upto(edv, t + 1, x, y) {
                        let k = choose|k: int| 0 <= k < t + 1 && #[trigger] edv[k] == (x, y);
                        if k < t {
                            assert(pair_listed_upto(edv, t as int, x, y));
                            assert(g0.dep(x, y));
                        } else {
                            assert((x, y) == (pn@, cn@));
                        }
                        assert(g.dep(x, y));
                    }
                }
            }
        }
        Some(g)
    }

    /// One-shot construction from a profile set: every stored name becomes
    /// a node, then every declared dependency becomes an edge.  The first
    /// reference to an unstored profile and the first edge that would
    /// close a loop abort the build.
    pub fn build(profiles: &ProfileSet) -> (r: Result<ProfileGraph, DependencyError>)
        requires
            profiles.wf(),
        ensures
            match r {
                Ok(g) => {
                    &&& g.wf()
                    &&& g.acyclic()
                    &&& (forall|nm: Seq<char>|
                        g.has_node(nm) == profiles.contains_name(nm))
                    &&& (forall|x: Seq<char>, y: Seq<char>|
                        g.dep(x, y) == declared_dep(*profiles, x, y))
                    &&& (forall|x: Seq<char>, y: Seq<char>|
                        declares(*profiles, x, y) ==> profiles.contains_name(y))
                },
                Err(DependencyError::DependencyNotFound(a, b)) => {
                    &&& declares(*profiles, a@, b@)
                    &&& !profiles.contains_name(b@)
                    &&& first_missing_ref(*profiles, a@, b@)
                },
                Err(DependencyError::CircularDependency(p)) => {
                    let dv = p.deep_view();
                    &&& dv.len() >= 3
                    &&& dv[0] == dv[dv.len() - 2]
                    &&& dv[1] == dv[dv.len() - 1]
                    &&& (forall|k: int|
                        0 <= k < dv.len() - 1 ==> declared_dep(*profiles, #[trigger] dv[k], dv[k
                            + 1]))
                },
                _ => false,
            },
    {
        let ghost ps = *profiles;
        let mut g = ProfileGraph::new();
        let n = profiles.len();
        for e in 0..n
            invariant
                ps == *profiles,
                profiles.wf(),
                n == ps.view_entries().len(),
                g.wf(),
                forall|x: Seq<char>, y: Seq<char>| !g.dep(x, y),
                forall|nm: Seq<char>|
                    g.has_node(nm) == exists|k: int|
                        0 <= k < e && (#[trigger] ps.view_entries()[k]).0 == nm,
        {
            g.add_node(profiles.name_at(e).clone());
            proof {
                assert forall|nm: Seq<char>|
                    g.has_node(nm) == exists|k: int|
                        0 <= k < e + 1 && (#[trigger] ps.view_entries()[k]).0 == nm by {
                    if g.has_node(nm) {
                        if nm == ps.view_entries()[e as int].0 {
                            assert((ps.view_entries()[e as int]).0 == nm);
                        } else {
                            let k = choose|k: int|
                                0 <= k < e && (#[trigger] ps.view_entries()[k]).0 == nm;
                            assert((ps.view_entries()[k]).0 == nm);
                        }
                    }
                    if exists|k: int|
                        0 <= k < e + 1 && (#[trigger] ps.view_entries()[k]).0 == nm {
                        let k = choose|k: int|
                            0 <= k < e + 1 && (#[trigger] ps.view_entries()[k]).0 == nm;
                        if k < e {
                            assert(exists|k2: int|
                                0 <= k2 < e && (#[trigger] ps.view_entries()[k2]).0 == nm);
                        }
                    }
                }
            }
        }
        proof {
            assert forall|nm: Seq<char>| g.has_node(nm) == ps.contains_name(nm) by {
                if g.has_node(nm) {
                    let k = choose|k: int|
                        0 <= k < n && (#[trigger] ps.view_entries()[k]).0 == nm;
                    lemma_assoc_get_at_found(ps.view_entries(), k, nm);
                }
                if ps.contains_name(nm) {
                    lemma_assoc_get_none(ps.view_entries(), nm);
                    let k = choose|k: int|
                        0 <= k < ps.view_entries().len() && (#[trigger] ps.view_entries()[k]).0
                            == nm;
                    assert((ps.view_entries()[k]).0 == nm);
                }
            }
        }
        for e in 0..n
            invariant
                ps == *profiles,
                profiles.wf(),
                n == ps.view_entries().len(),
                g.wf(),
                g.acyclic(),
                forall|nm: Seq<char>| g.has_node(nm) == ps.contains_name(nm),
                forall|x: Seq<char>, y: Seq<char>|
                    g.dep(x, y) ==> declared_dep(ps, x, y),
                forall|k: int, d: int|
                    0 <= k < e && 0 <= d < ps.view_entries()[k].1.deps().len() ==> g.dep(
                        ps.view_entries()[k].0,
                        #[trigger] ps.view_entries()[k].1.deps()[d],
                    ),
        {
            let deg = profiles.profile_at(e).profiles.len();
            let ghost ee = e as int;
            for d in 0..deg
                invariant
                    ps == *profiles,
                    profiles.wf(),
                    n == ps.view_entries().len(),
                    ee == e as int,
                    0 <= ee < n,
                    deg == ps.view_entries()[ee].1.deps().len(),
                    g.wf(),
                    g.acyclic(),
                    forall|nm: Seq<char>| g.has_node(nm) == ps.contains_name(nm),
                    forall|x: Seq<char>, y: Seq<char>|
                        g.dep(x, y) ==> declared_dep(ps, x, y),
                    forall|k: int, d2: int|
                        0 <= k < ee && 0 <= d2 < ps.view_entries()[k].1.deps().len() ==> g.dep(
                            ps.view_entries()[k].0,
                            #[trigger] ps.view_entries()[k].1.deps()[d2],
                        ),
                    forall|d2: int|
                        0 <= d2 < d ==> g.dep(
                            ps.view_entries()[ee].0,
                            #[trigger] ps.view_entries()[ee].1.deps()[d2],
                        ),
            {
                let ghost g0 = g;
                let ghost pnm = ps.view_entries()[ee].0;
                let ghost dnm = ps.view_entries()[ee].1.deps()[d as int];
                proof {
                    lemma_assoc_get_at_found(ps.view_entries(), ee, pnm);
                    assert(declares(ps, pnm, dnm)) by {
                        assert(ps.view_entries()[ee].1.deps().contains(dnm));
                    }
                }
                let res = g.add_dependency(
                    profiles.name_at(e).as_str(),
                    profiles.profile_at(e).profiles[d].as_str(),
                );
                match res {
                    Ok(()) => {
                        proof {
                            assert forall|x: Seq<char>, y: Seq<char>|
                                g.dep(x, y) implies declared_dep(ps, x, y) by {
                                if !g0.dep(x, y) {
                                    assert(x == pnm && y == dnm);
                                    assert(g0.has_node(dnm));
                                }
                            }
                            assert forall|d2: int|
                                0 <= d2 < d + 1 implies g.dep(
                                ps.view_entries()[ee].0,
                                #[trigger] ps.view_entries()[ee].1.deps()[d2],
                            ) by {
                                if d2 < d {
                                    assert(g0.dep(pnm, ps.view_entries()[ee].1.deps()[d2]));
                                }
                            }
                        }
                    },
                    Err(err) => {
                        proof {
                            match &err {
                                DependencyError::ProfileNotFound(_) => {
                                    assert(g0.has_node(pnm));
                                    assert(false);
                                },
                                DependencyError::DependencyNotFound(_, _) => {
                                    assert(!g0.has_node(dnm));
                                    assert(!ps.contains_name(dnm));
                                    // every reference tried before this one
                                    // got its edge, so its target is stored
                                    assert forall|k2: int, d2: int|
                                        0 <= k2 < ps.view_entries().len() && 0 <= d2
                                            < ps.view_entries()[k2].1.deps().len() && (k2
                                            < e as int || (k2 == e as int && d2
                                            < d as int)) implies ps.contains_name(
                                        #[trigger] ps.view_entries()[k2].1.deps()[d2]) by {
                                        assert(g0.dep(
                                            ps.view_entries()[k2].0,
                                            ps.view_entries()[k2].1.deps()[d2],
                                        ));
                                        g0.lemma_dep_registered(
                                            ps.view_entries()[k2].0,
                                            ps.view_entries()[k2].1.deps()[d2],
                                        );
                                    }
                                    assert(ps.view_entries()[ee].0 == pnm);
                                    assert(ps.view_entries()[ee].1.deps()[d as int] == dnm);
                                },
                                DependencyError::CircularDependency(path) => {
                                    let dv = path.deep_view();
                                    assert(dv[0] == pnm && dv[1] == dnm);
                                    assert(dv[dv.len() - 2] == pnm && dv.last() == dnm);
                                    assert(g0.has_node(dnm));
                                    assert forall|k: int|
                                        0 <= k < dv.len() - 1 implies declared_dep(
                                        ps,
                                        #[trigger] dv[k],
                                        dv[k + 1],
                                    ) by {
                                        if k == 0 {
                                        } else if k == dv.len() - 2 {
                                            assert(dv[k] == pnm && dv[k + 1] == dnm);
                                        } else {
                                            let mid = dv.subrange(1, dv.len() - 1);
                                            assert(g0.dep(mid[k - 1], mid[k]));
                                            assert(mid[k - 1] == dv[k] && mid[k] == dv[k + 1]);
                                        }
                                    }
                                },
                                _ => {
                                    assert(false);
                                },
                            }
                        }
                        return Err(err);
                    },
                }
            }
        }
        proof {
            assert forall|x: Seq<char>, y: Seq<char>|
                declared_dep(ps, x, y) implies g.dep(x, y) by {
                lemma_assoc_get_none(ps.view_entries(), x);
                let k = choose|k: int|
                    0 <= k < ps.view_entries().len() && (#[trigger] ps.view_entries()[k]).0 == x;
                lemma_assoc_get_at_found(ps.view_entries(), k, x);
                let p = ps.view_entries()[k].1;
                assert(p.deps().contains(y));
                let d = choose|d: int| 0 <= d < p.deps().len() && p.deps()[d] == y;
                assert(g.dep(ps.view_entries()[k].0, ps.view_entries()[k].1.deps()[d]));
            }
            assert forall|x: Seq<char>, y: Seq<char>|
                declares(ps, x, y) implies ps.contains_name(y) by {
                assert(declared_dep(ps, x, y) || !ps.contains_name(y));
                if ps.contains_name(y) {
                } else {
                    lemma_assoc_get_none(ps.view_entries(), x);
                    let k = choose|k: int|
                        0 <= k < ps.view_entries().len() && (#[trigger] ps.view_entries()[k]).0
                            == x;
                    lemma_assoc_get_at_found(ps.view_entries(), k, x);
                    let p = ps.view_entries()[k].1;
                    let d = choose|d: int| 0 <= d < p.deps().len() && p.deps()[d] == y;
                    assert(g.dep(ps.view_entries()[k].0, ps.view_entries()[k].1.deps()[d]));
                    assert(g.has_node(y));
                }
            }
        }
        Ok(g)
    }

    /// A dependency edge joins two registered names.
    pub proof fn lemma_dep_registered(self, x: Seq<char>, y: Seq<char>)
        requires
            self.dep(x, y),
        ensures
            self.has_node(x),
            self.has_node(y),
    {
        let (i, j) = choose|i: int, j: int|
            {
                &&& self.is_node(i)
                &&& self.is_node(j)
                &&& self.name_of(i) == x
                &&& self.name_of(j) == y
                &&& #[trigger] self.edge_i(i, j)
            };
        assert(self.is_node(i) && self.name_of(i) == x);
        assert(self.is_node(j) && self.name_of(j) == y);
    }

    /// A graph whose dependency relation shrank (or stayed) cannot have
    /// gained a closed walk.
    pub proof fn lemma_acyclic_mono(self, g0: Self)
        requires
            forall|x: Seq<char>, y: Seq<char>| self.dep(x, y) ==> g0.dep(x, y),
            g0.acyclic(),
        ensures
            self.acyclic(),
    {
        if !self.acyclic() {
            let p = choose|p: Seq<Seq<char>>| self.is_cycle(p);
            assert forall|k: int| 0 <= k < p.len() - 1 implies g0.dep(
                #[trigger] p[k],
                p[k + 1],
            ) by {
                assert(self.dep(p[k], p[k + 1]));
            }
            assert forall|k: int| 0 <= k < p.len() implies g0.has_node(#[trigger] p[k]) by {
                if k < p.len() - 1 {
                    assert(g0.dep(p[k], p[k + 1]));
                    self.lemma_dep_nodes_for(g0, p[k], p[k + 1]);
                } else {
                    assert(p[k] == p[0]);
                    assert(g0.dep(p[0], p[1]));
                    self.lemma_dep_nodes_for(g0, p[0], p[1]);
                }
            }
            assert(g0.is_cycle(p));
        }
    }

    /// A dependency joins two registered names.
    proof fn lemma_dep_nodes_for(self, g0: Self, x: Seq<char>, y: Seq<char>)
        requires
            g0.dep(x, y),
        ensures
            g0.has_node(x),
            g0.has_node(y),
    {
        let (i, j) = choose|i: int, j: int|
            {
                &&& g0.is_node(i)
                &&& g0.is_node(j)
                &&& g0.name_of(i) == x
                &&& g0.name_of(j) == y
                &&& #[trigger] g0.edge_i(i, j)
            };
        assert(g0.is_node(i) && g0.name_of(i) == x);
        assert(g0.is_node(j) && g0.name_of(j) == y);
    }

    /// Registers a node for `name`; present names are left untouched.
    pub fn add_node(&mut self, name: String)
        requires
            old(self).wf(),
        ensures
            final(self).wf(),
            forall|nm: Seq<char>|
                final(self).has_node(nm) == (old(self).has_node(nm) || nm == name@),
            forall|p: Seq<char>, c: Seq<char>| final(self).dep(p, c) == old(self).dep(p, c),
    {
        match self.find_index(name.as_str()) {
            Some(i) => {
                proof {
                    assert(*self == *old(self));
                    assert(old(self).is_node(i as int) && old(self).name_of(i as int) == name@);
                    assert(old(self).has_node(name@));
                }
            },
            None => {
                let ghost g0 = *self;
                self.names.push(name);
                self.alive.push(true);
                self.adj.push(Vec::new());
                proof {
                    let g1 = *self;
                    let n0 = g0.n();
                    assert(g1.n() == n0 + 1);
                    assert(g1.names@ == g0.names@.push(name));
                    assert(g1.alive@ == g0.alive@.push(true));
                    assert(g1.adj@.len() == n0 + 1);
                    assert(g1.adj@[n0]@ =~= Seq::<usize>::empty());
                    assert forall|i: int| 0 <= i < n0 implies #[trigger] g1.names@[i]
                        == g0.names@[i] by {}
                    assert forall|i: int| 0 <= i < n0 implies #[trigger] g1.alive@[i]
                        == g0.alive@[i] by {}
                    assert forall|i: int| 0 <= i < n0 implies #[trigger] g1.adj@[i]
                        == g0.adj@[i] by {}
                    assert(g1.name_of(n0) == name@);
                    assert forall|i: int, j: int|
                        0 <= i < j < g1.n() && g1.alive@[i] && g1.alive@[j] implies g1.name_of(i)
                        != g1.name_of(j) by {
                        assert(g1.alive@[i] == g0.alive@[i]);
                        assert(g0.is_node(i));
                        assert(g1.names@[i] == g0.names@[i]);
                        assert(g1.name_of(i) == g0.name_of(i));
                        if j < n0 {
                            assert(g1.alive@[j] == g0.alive@[j]);
                            assert(g1.names@[j] == g0.names@[j]);
                            assert(g1.name_of(j) == g0.name_of(j));
                            assert(g0.name_of(i) != g0.name_of(j));
                        } else {
                            assert(j == n0);
                            assert(!(g0.is_node(i) && g0.name_of(i) == name@));
                            assert(g1.name_of(j) == name@);
                        }
                    }
                    assert forall|i: int| #[trigger] g1.is_node(i) && i < g0.n() implies (
                    g0.is_node(i) && g1.name_of(i) == g0.name_of(i)) by {}
                    assert forall|nm: Seq<char>|
                        g1.has_node(nm) == (g0.has_node(nm) || nm == name@) by {
                        if nm == name@ {
                            assert(g1.is_node(n0) && g1.name_of(n0) == nm);
                            assert(g1.has_node(nm));
                        } else {
                            if g1.has_node(nm) {
                                let i = choose|i: int| g1.is_node(i) && g1.name_of(i) == nm;
                                assert(i < n0);
                                assert(g0.is_node(i) && g0.name_of(i) == nm);
                                assert(g0.has_node(nm));
                            }
                            if g0.has_node(nm) {
                                let i = choose|i: int| g0.is_node(i) && g0.name_of(i) == nm;
                                assert(g1.alive@[i] == g0.alive@[i]);
                                assert(g1.is_node(i) && g1.name_of(i) == nm);
                                assert(g1.has_node(nm));
                            }
                        }
                    }
                    assert forall|i: int, j: int| #[trigger] g1.edge_i(i, j) implies g0.edge_i(
                        i,
                        j,
                    ) by {
                        assert(g1.adj@[i]@ == if i < g0.n() {
                            g0.adj@[i]@
                        } else {
                            Seq::<usize>::empty()
                        });
                    }
                    assert forall|i: int, j: int| #[trigger] g0.edge_i(i, j) implies g1.edge_i(
                        i,
                        j,
                    ) by {
                        assert(g1.adj@[i]@ == g0.adj@[i]@);
                    }
                    assert(g1.wf());
                    assert forall|p: Seq<char>, c: Seq<char>| #[trigger] g1.dep(p, c) implies
                        g0.dep(p, c) by {
                        let (i, j) = choose|i: int, j: int|
                            {
                                &&& g1.is_node(i)
                                &&& g1.is_node(j)
                                &&& g1.name_of(i) == p
                                &&& g1.name_of(j) == c
                                &&& #[trigger] g1.edge_i(i, j)
                            };
                        assert(g0.edge_i(i, j));
                        assert(g0.is_node(i));
                    }
                    assert forall|p: Seq<char>, c: Seq<char>| #[trigger] g0.dep(p, c) implies
                        g1.dep(p, c) by {
                        let (i, j) = choose|i: int, j: int|
                            {
                                &&& g0.is_node(i)
                                &&& g0.is_node(j)
                                &&& g0.name_of(i) == p
                                &&& g0.name_of(j) == c
                                &&& #[trigger] g0.edge_i(i, j)
                            };
                        assert(g1.edge_i(i, j));
                    }
                }
            },
        }
    }
}

} // verus!
