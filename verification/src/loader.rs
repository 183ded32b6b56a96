//! The profile store boundary and the lazy, fault-tolerant loader.
//!
//! The store is the in-memory image of the durable profile records: for
//! each name either a parsed profile or the failure met while reading it.
//! The loader populates the graph and the working profile set from the
//! store on demand, isolating failures of separate dependency branches of
//! one load and aggregating them instead of aborting at the first.

use vstd::prelude::*;

use crate::graph::DependencyError;
use crate::graph::ProfileGraph;
use crate::models::Profile;
use crate::models::ProfileNames;
use crate::models::ProfileSet;
use crate::models::assoc_get;
use crate::models::assoc_keys;
use crate::models::lemma_assoc_get_at_found;
use crate::models::lemma_assoc_get_none;
use crate::models::lemma_assoc_get_push;
use crate::models::lemma_assoc_get_update;
use crate::models::str_eq;

verus! {

/// What reading one record from storage produced.
#[derive(Debug)]
pub enum StoreRecord {
    /// A parsed profile.
    Record(Profile),
    /// The record could not be read; the cause, rendered.
    IoFailure(String),
    /// The record could not be parsed; the cause, rendered.
    ParseFailure(String),
}

/// A failure at the storage boundary.
#[derive(Debug)]
pub enum LoadError {
    /// Reading failed; the cause, rendered.
    Io(String),
    /// Parsing failed; the cause, rendered.
    Parse(String),
    /// No record exists under this name.
    NotFound(String),
}

/// The in-memory image of the stored profile records.
#[derive(Debug)]
pub struct ProfileStore {
    records: Vec<(String, StoreRecord)>,
}

impl ProfileStore {
    /// The records with their names spelled out.
    pub closed spec fn view_records(self) -> Seq<(Seq<char>, StoreRecord)> {
        self.records@.map_values(|e: (String, StoreRecord)| (e.0@, e.1))
    }

    /// The record stored under a name, if any.
    pub open spec fn lookup(self, nm: Seq<char>) -> Option<StoreRecord> {
        assoc_get(self.view_records(), nm)
    }

    /// The stored names, in insertion order.
    pub open spec fn names_view(self) -> Seq<Seq<char>> {
        assoc_keys(self.view_records())
    }

    /// Each name is stored at most once.
    pub open spec fn wf(self) -> bool {
        self.names_view().no_duplicates()
    }

    pub fn new() -> (s: ProfileStore)
        ensures
            s.wf(),
            forall|nm: Seq<char>| s.lookup(nm) is None,
    {
        let s = ProfileStore { records: Vec::new() };
        proof {
            assert(s.view_records() =~= Seq::<(Seq<char>, StoreRecord)>::empty());
            assert forall|nm: Seq<char>| s.lookup(nm) is None by {}
        }
        s
    }

    /// Finds the index of the record stored under `name`, if any.
    fn find_record(&self, name: &str) -> (r: Option<usize>)
        ensures
            match r {
                Some(i) => i < self.view_records().len() && self.view_records()[i as int].0
                    == name@,
                None => forall|j: int|
                    0 <= j < self.view_records().len() ==> self.view_records()[j].0 != name@,
            },
    {
        let n = self.records.len();
        for i in 0..n
            invariant
                n == self.records.len(),
                forall|j: int| 0 <= j < i ==> self.view_records()[j].0 != name@,
        {
            proof {
                assert(self.view_records()[i as int] == (self.records@[i as int].0@, self.records@[
                    i as int].1));
            }
            if str_eq(self.records[i].0.as_str(), name) {
                return Some(i);
            }
        }
        None
    }

    /// Puts a record under `name`, replacing any previous one.
    pub fn insert_record(&mut self, name: &str, record: StoreRecord)
        requires
            old(self).wf(),
        ensures
            final(self).wf(),
            forall|nm: Seq<char>|
                final(self).lookup(nm) == if nm == name@ {
                    Some(record)
                } else {
                    old(self).lookup(nm)
                },
            final(self).names_view() =~= if old(self).lookup(name@) is Some {
                old(self).names_view()
            } else {
                old(self).names_view().push(name@)
            },
    {
        let ghost s0 = self.view_records();
        match self.find_record(name) {
            Some(i) => {
                self.records.set(i, (name.to_owned(), record));
                proof {
                    assert(self.view_records() =~= s0.update(i as int, (s0[i as int].0, record)));
                    lemma_assoc_get_update(s0, i as int, record);
                    assert(assoc_keys(self.view_records()) =~= assoc_keys(s0));
                    lemma_assoc_get_at_found(s0, i as int, name@);
                }
            },
            None => {
                self.records.push((name.to_owned(), record));
                proof {
                    assert(self.view_records() =~= s0.push((name@, record)));
                    lemma_assoc_get_push(s0, (name@, record));
                    lemma_assoc_get_none(s0, name@);
                    assert(assoc_keys(self.view_records()) =~= assoc_keys(s0).push(name@));
                    assert forall|j: int| 0 <= j < assoc_keys(s0).len() implies assoc_keys(s0)[j]
                        != name@ by {
                        assert(assoc_keys(s0)[j] == s0[j].0);
                    }
                }
            },
        }
    }

    /// Borrows the record stored under `name`.
    fn get_record(&self, name: &str) -> (r: Option<&StoreRecord>)
        requires
            self.wf(),
        ensures
            match r {
                Some(rec) => self.lookup(name@) == Some(*rec),
                None => self.lookup(name@) is None,
            },
    {
        match self.find_record(name) {
            Some(i) => {
                proof {
                    lemma_assoc_get_at_found(self.view_records(), i as int, name@);
                }
                Some(&self.records[i].1)
            },
            None => {
                proof {
                    lemma_assoc_get_none(self.view_records(), name@);
                }
                None
            },
        }
    }

    /// Reads the profile stored under `name`, or says why there is none:
    /// the storage boundary of the engine.
    pub fn read_profile(&self, name: &str) -> (r: Result<Profile, LoadError>)
        requires
            self.wf(),
        ensures
            match r {
                Ok(p) => exists|q: Profile|
                    self.lookup(name@) == Some(StoreRecord::Record(q)) && p.vars() == q.vars()
                        && p.deps() == q.deps(),
                Err(LoadError::NotFound(n)) => n@ == name@ && self.lookup(name@) is None,
                Err(LoadError::Io(c)) => exists|c0: String|
                    self.lookup(name@) == Some(StoreRecord::IoFailure(c0)) && c@ == c0@,
                Err(LoadError::Parse(c)) => exists|c0: String|
                    self.lookup(name@) == Some(StoreRecord::ParseFailure(c0)) && c@ == c0@,
            },
    {
        match self.get_record(name) {
            None => Err(LoadError::NotFound(name.to_owned())),
            Some(StoreRecord::Record(p)) => {
                let q = p.duplicate();
                proof {
                    let w = *p;
                    assert(self.lookup(name@) == Some(StoreRecord::Record(w)) && q.vars()
                        == w.vars() && q.deps() == w.deps());
                }
                Ok(q)
            },
            Some(StoreRecord::IoFailure(c)) => {
                let r = c.clone();
                proof {
                    assert(self.lookup(name@) == Some(StoreRecord::IoFailure(*c)) && r@ == (*c)@);
                }
                Err(LoadError::Io(r))
            },
            Some(StoreRecord::ParseFailure(c)) => {
                let r = c.clone();
                proof {
                    assert(self.lookup(name@) == Some(StoreRecord::ParseFailure(*c)) && r@ == (
                    *c)@);
                }
                Err(LoadError::Parse(r))
            },
        }
    }

    /// Lists every stored name.
    pub fn list_profile_names(&self) -> (r: Vec<String>)
        ensures
            r.deep_view() =~= self.names_view(),
    {
        let n = self.records.len();
        let mut out: Vec<String> = Vec::new();
        for i in 0..n
            invariant
                n == self.records.len(),
                out.deep_view().len() == i,
                forall|j: int| 0 <= j < i ==> out.deep_view()[j] == self.names_view()[j],
        {
            out.push(self.records[i].0.clone());
            proof {
                assert forall|j: int| 0 <= j < i + 1 implies out.deep_view()[j]
                    == self.names_view()[j] by {
                    if j == i as int {
                        assert(out@[j] == self.records@[j].0);
                        assert(self.names_view()[j] == self.view_records()[j].0);
                        assert(self.view_records()[j] == (self.records@[j].0@, self.records@[
                            j].1));
                    }
                }
            }
        }
        proof {
            assert(self.names_view().len() == self.view_records().len());
        }
        out
    }
}

/// The record stored under `x` declares `y` among its dependencies.
pub open spec fn store_declares(st: ProfileStore, x: Seq<char>, y: Seq<char>) -> bool {
    match st.lookup(x) {
        Some(StoreRecord::Record(p)) => p.deps().contains(y),
        _ => false,
    }
}

/// A walk through the store's declared dependencies.
pub open spec fn store_path(st: ProfileStore, q: Seq<Seq<char>>) -> bool {
    q.len() >= 1 && (forall|k: int| 0 <= k < q.len() - 1 ==> store_declares(st, #[trigger] q[k], q[k + 1]))
}

/// Some declared walk leads from `a` to `b`; every name reaches itself.
pub open spec fn store_reaches(st: ProfileStore, a: Seq<char>, b: Seq<char>) -> bool {
    exists|q: Seq<Seq<char>>| store_path(st, q) && q.first() == a && q.last() == b
}

/// Every record in the declared closure of `name` is a parsed profile.
pub open spec fn closure_readable(st: ProfileStore, name: Seq<char>) -> bool {
    forall|x: Seq<char>|
        store_reaches(st, name, x) ==> (#[trigger] st.lookup(x)) matches Some(
            StoreRecord::Record(_),
        )
}

/// No declared cycle is reachable from `name`.
pub open spec fn closure_acyclic(st: ProfileStore, name: Seq<char>) -> bool {
    !(exists|q: Seq<Seq<char>>|
        store_path(st, q) && q.len() >= 2 && q.first() == q.last() && store_reaches(
            st,
            name,
            q.first(),
        ))
}

/// Every edge of the graph is a declared dependency of the store.
pub open spec fn graph_within_store(g: ProfileGraph, st: ProfileStore) -> bool {
    forall|x: Seq<char>, y: Seq<char>| #[trigger] g.dep(x, y) ==> store_declares(st, x, y)
}

proof fn lemma_store_reaches_refl(st: ProfileStore, a: Seq<char>)
    ensures
        store_reaches(st, a, a),
{
    let q = seq![a];
    assert(store_path(st, q));
    assert(q.first() == a && q.last() == a);
}

proof fn lemma_store_reaches_prepend(st: ProfileStore, a: Seq<char>, b: Seq<char>, c: Seq<char>)
    requires
        store_declares(st, a, b),
        store_reaches(st, b, c),
    ensures
        store_reaches(st, a, c),
{
    let q = choose|q: Seq<Seq<char>>| store_path(st, q) && q.first() == b && q.last() == c;
    let q2 = seq![a] + q;
    assert forall|k: int| 0 <= k < q2.len() - 1 implies store_declares(
        st,
        #[trigger] q2[k],
        q2[k + 1],
    ) by {
        if k == 0 {
            assert(q2[0] == a && q2[1] == q[0]);
        } else {
            assert(q2[k] == q[k - 1] && q2[k + 1] == q[k]);
        }
    }
    assert(store_path(st, q2));
    assert(q2.first() == a && q2.last() == c);
}

/// A graph walk whose edges all sit within the store's declarations is a
/// declared walk.
proof fn lemma_graph_path_in_store(
    g: ProfileGraph,
    st: ProfileStore,
    p: Seq<Seq<char>>,
)
    requires
        graph_within_store(g, st),
        g.is_path(p),
    ensures
        store_path(st, p),
{
    assert forall|k: int| 0 <= k < p.len() - 1 implies store_declares(
        st,
        #[trigger] p[k],
        p[k + 1],
    ) by {
        assert(g.dep(p[k], p[k + 1]));
    }
}

/// A readable, acyclic closure stays readable and acyclic one declared
/// step further down.
proof fn lemma_clean_closure_step(st: ProfileStore, a: Seq<char>, b: Seq<char>)
    requires
        store_declares(st, a, b),
        closure_readable(st, a),
        closure_acyclic(st, a),
    ensures
        closure_readable(st, b),
        closure_acyclic(st, b),
{
    assert forall|x: Seq<char>| store_reaches(st, b, x) implies (#[trigger] st.lookup(x)) matches Some(
        StoreRecord::Record(_),
    ) by {
        lemma_store_reaches_prepend(st, a, b, x);
    }
    if exists|q: Seq<Seq<char>>|
        store_path(st, q) && q.len() >= 2 && q.first() == q.last() && store_reaches(
            st,
            b,
            q.first(),
        ) {
        let q = choose|q: Seq<Seq<char>>|
            store_path(st, q) && q.len() >= 2 && q.first() == q.last() && store_reaches(
                st,
                b,
                q.first(),
            );
        lemma_store_reaches_prepend(st, a, b, q.first());
    }
}

/// In a consistent manager whose loaded set is closed under declared
/// dependencies, every declared walk that starts loaded stays loaded.
proof fn lemma_closed_walk_committed(m: ConfigManager, q: Seq<Seq<char>>)
    requires
        m.store_consistent(),
        forall|x: Seq<char>, y: Seq<char>|
            #[trigger] m.committed_declares(x, y) ==> m.profiles_view().contains_name(y),
        store_path(m.store_view(), q),
        m.profiles_view().contains_name(q.first()),
    ensures
        forall|k: int| 0 <= k < q.len() ==> m.profiles_view().contains_name(#[trigger] q[k]),
    decreases q.len(),
{
    if q.len() > 1 {
        let h = q.drop_last();
        assert forall|t: int| 0 <= t < h.len() - 1 implies store_declares(
            m.store_view(),
            #[trigger] h[t],
            h[t + 1],
        ) by {
            assert(h[t] == q[t] && h[t + 1] == q[t + 1]);
        }
        assert(store_path(m.store_view(), h));
        assert(h.first() == q.first());
        lemma_closed_walk_committed(m, h);
        let a = q[q.len() - 2];
        let b = q[q.len() - 1];
        assert(m.profiles_view().contains_name(a)) by {
            assert(h[q.len() - 2] == a);
        }
        assert(store_declares(m.store_view(), a, b));
        assert(m.committed_declares(a, b)) by {
            assert(m.backed_by_store(a));
        }
        assert forall|k: int| 0 <= k < q.len() implies m.profiles_view().contains_name(
            #[trigger] q[k]) by {
            if k < q.len() - 1 {
                assert(h[k] == q[k]);
            }
        }
    }
}

/// The error one load can return for the profile `who`, pinned against
/// the store: a record-level failure matches `who`'s own record; anything
/// else wraps the genuine failure of one or more declared dependency
/// branches.
pub open spec fn load_failure(st: ProfileStore, who: Seq<char>, e: DependencyError) -> bool
    decreases e, 1int,
{
    match e {
        DependencyError::ProfileNotFound(n) => n@ == who && st.lookup(who) is None,
        DependencyError::ProfileIoError(n, _) => n@ == who && (st.lookup(who) matches Some(
            StoreRecord::IoFailure(_),
        )),
        DependencyError::ProfileParseError(n, _) => n@ == who && (st.lookup(who) matches Some(
            StoreRecord::ParseFailure(_),
        )),
        DependencyError::DependencyChain { profile, cause } => match st.lookup(who) {
            Some(StoreRecord::Record(p)) => exists|i: int|
                0 <= i < p.deps().len() && member_failure(st, who, #[trigger] p.deps()[i], e),
            _ => false,
        },
        DependencyError::CircularDependency(path) => match st.lookup(who) {
            Some(StoreRecord::Record(p)) => exists|i: int|
                0 <= i < p.deps().len() && member_failure(st, who, #[trigger] p.deps()[i], e),
            _ => false,
        },
        DependencyError::MultipleErrors(v) => v@.len() >= 2 && (match st.lookup(who) {
            Some(StoreRecord::Record(p)) => multi_failure_ok(st, who, p.deps(), v@),
            _ => false,
        }),
        DependencyError::DependencyNotFound(_, _) => false,
    }
}

/// One recorded branch failure: either the failure of loading the
/// declared dependency `d`, wrapped for `who`, or the rejection of the
/// edge who → d, which would have closed a loop.
pub open spec fn member_failure(
    st: ProfileStore,
    who: Seq<char>,
    d: Seq<char>,
    m: DependencyError,
) -> bool
    decreases m, 0int,
{
    match m {
        DependencyError::DependencyChain { profile, cause } => profile@ == who && load_failure(
            st,
            d,
            *cause,
        ),
        DependencyError::CircularDependency(path) => {
            let dv = path.deep_view();
            dv.len() >= 3 && dv[0] == who && dv.last() == d
        },
        _ => false,
    }
}

/// Aggregated failures follow strictly later declared dependencies: each
/// member is the genuine failure of a distinct branch, in order.
pub open spec fn multi_failure_ok(
    st: ProfileStore,
    who: Seq<char>,
    deps: Seq<Seq<char>>,
    v: Seq<DependencyError>,
) -> bool
    decreases v, 2int,
{
    exists|ix: Seq<int>|
        {
            &&& ix.len() == v.len()
            &&& (forall|j: int, j2: int| 0 <= j < j2 < ix.len() ==> ix[j] < ix[j2])
            &&& (forall|j: int|
                0 <= j < v.len() ==> 0 <= #[trigger] ix[j] < deps.len() && member_failure(
                    st,
                    who,
                    deps[ix[j]],
                    v[j],
                ))
        }
}

/// The top of a dependency's own failure names that dependency.
pub open spec fn failure_names(c: DependencyError, d: Seq<char>) -> bool {
    match c {
        DependencyError::ProfileNotFound(n) => n@ == d,
        DependencyError::ProfileIoError(n, _) => n@ == d,
        DependencyError::ProfileParseError(n, _) => n@ == d,
        DependencyError::DependencyChain { profile, cause } => profile@ == d,
        DependencyError::CircularDependency(p) => p.deep_view().len() >= 1 && p.deep_view()[0]
            == d,
        DependencyError::MultipleErrors(_) => true,
        DependencyError::DependencyNotFound(_, _) => false,
    }
}

/// The load's result records a failure for the dependency `d`: either the
/// single returned wrapper carries it, or one member of the aggregate
/// does.
pub open spec fn result_names_failed_dep(r: Result<(), DependencyError>, d: Seq<char>) -> bool {
    match r {
        Ok(_) => false,
        Err(e) => match e {
            DependencyError::DependencyChain { profile, cause } => failure_names(*cause, d),
            DependencyError::MultipleErrors(v) => exists|j: int|
                0 <= j < v@.len() && ((#[trigger] v@[j]) matches DependencyError::DependencyChain {
                    profile,
                    cause,
                } && failure_names(*cause, d)),
            _ => false,
        },
    }
}

/// How many stored names the visiting stack has not yet entered.
spec fn unvisited_count(names: Seq<Seq<char>>, visiting: Seq<Seq<char>>) -> int
    decreases names.len(),
{
    if names.len() == 0 {
        0
    } else {
        unvisited_count(names.drop_last(), visiting) + if visiting.contains(names.last()) {
            0int
        } else {
            1int
        }
    }
}

proof fn lemma_unvisited_nonneg(names: Seq<Seq<char>>, visiting: Seq<Seq<char>>)
    ensures
        0 <= unvisited_count(names, visiting),
    decreases names.len(),
{
    if names.len() > 0 {
        lemma_unvisited_nonneg(names.drop_last(), visiting);
    }
}

proof fn lemma_unvisited_mono(names: Seq<Seq<char>>, v1: Seq<Seq<char>>, v2: Seq<Seq<char>>)
    requires
        forall|x: Seq<char>| v1.contains(x) ==> v2.contains(x),
    ensures
        unvisited_count(names, v2) <= unvisited_count(names, v1),
    decreases names.len(),
{
    if names.len() > 0 {
        lemma_unvisited_mono(names.drop_last(), v1, v2);
    }
}

proof fn lemma_unvisited_push(names: Seq<Seq<char>>, v: Seq<Seq<char>>, x: Seq<char>)
    requires
        names.contains(x),
        !v.contains(x),
    ensures
        unvisited_count(names, v.push(x)) <= unvisited_count(names, v) - 1,
    decreases names.len(),
{
    let v2 = v.push(x);
    assert(v2[v2.len() - 1] == x);
    assert(v2.contains(x));
    assert forall|y: Seq<char>| v.contains(y) implies v2.contains(y) by {
        let k = choose|k: int| 0 <= k < v.len() && v[k] == y;
        assert(v2[k] == y);
    }
    if names.last() == x {
        lemma_unvisited_mono(names.drop_last(), v, v2);
    } else {
        let k = choose|k: int| 0 <= k < names.len() && names[k] == x;
        assert(names.drop_last()[k] == x);
        assert(names.drop_last().contains(x));
        lemma_unvisited_push(names.drop_last(), v, x);
    }
}

/// Whether the stack of names holds `x`.
fn names_contains(v: &Vec<String>, x: &str) -> (r: bool)
    ensures
        r == v.deep_view().contains(x@),
{
    let n = v.len();
    for i in 0..n
        invariant
            n == v@.len(),
            forall|j: int| 0 <= j < i ==> v.deep_view()[j] != x@,
    {
        if str_eq(v[i].as_str(), x) {
            proof {
                assert(v.deep_view()[i as int] == x@);
            }
            return true;
        }
    }
    proof {
        if v.deep_view().contains(x@) {
            let j = choose|j: int| 0 <= j < v.deep_view().len() && v.deep_view()[j] == x@;
        }
    }
    false
}

/// The in-memory engine state of one session: the store image, the
/// working profile set, and the dependency graph.
pub struct ConfigManager {
    store: ProfileStore,
    profiles: ProfileSet,
    graph: ProfileGraph,
}

impl ConfigManager {
    /// The store image this session reads from.
    pub closed spec fn store_view(self) -> ProfileStore {
        self.store
    }

    /// The working profile set.
    pub closed spec fn profiles_view(self) -> ProfileSet {
        self.profiles
    }

    /// The dependency graph.
    pub closed spec fn graph_view(self) -> ProfileGraph {
        self.graph
    }

    pub open spec fn wf(self) -> bool {
        &&& self.store_view().wf()
        &&& self.profiles_view().wf()
        &&& self.graph_view().wf()
    }

    /// The working copy under `nm`, if any, matches its stored record.
    pub open spec fn backed_by_store(self, nm: Seq<char>) -> bool {
        match self.profiles_view().lookup(nm) {
            Some(p) => match self.store_view().lookup(nm) {
                Some(StoreRecord::Record(q)) => p.vars() == q.vars() && p.deps() == q.deps(),
                _ => false,
            },
            None => true,
        }
    }

    /// Every working copy matches its stored record.
    pub open spec fn store_consistent(self) -> bool {
        forall|nm: Seq<char>| #[trigger] self.backed_by_store(nm)
    }

    /// Every loaded profile has its node in the graph.
    pub open spec fn loaded_registered(self) -> bool {
        forall|nm: Seq<char>|
            #[trigger] self.profiles_view().contains_name(nm) ==> self.graph_view().has_node(nm)
    }

    /// The loaded working copy under `x` declares `y`.
    pub open spec fn committed_declares(self, x: Seq<char>, y: Seq<char>) -> bool {
        match self.profiles_view().lookup(x) {
            Some(p) => p.deps().contains(y),
            None => false,
        }
    }

    /// Every loaded profile has every one of its declared dependency
    /// edges in the graph.
    pub open spec fn committed_edges(self) -> bool {
        forall|x: Seq<char>, y: Seq<char>|
            #[trigger] self.committed_declares(x, y) ==> self.graph_view().dep(x, y)
    }

    /// Every loaded profile whose declared closure is readable and
    /// acyclic has that whole closure loaded.
    pub open spec fn clean_closures_committed(self) -> bool {
        forall|x: Seq<char>, q: Seq<Seq<char>>|
            #![trigger self.profiles_view().contains_name(x), store_path(self.store_view(), q)]
            self.profiles_view().contains_name(x) && closure_readable(self.store_view(), x)
                && closure_acyclic(self.store_view(), x) && store_path(self.store_view(), q)
                && q.first() == x ==> self.profiles_view().contains_name(q.last())
    }

    /// Opens a session over a store image, with nothing loaded yet.
    pub fn new(store: ProfileStore) -> (m: ConfigManager)
        requires
            store.wf(),
        ensures
            m.wf(),
            m.store_consistent(),
            m.loaded_registered(),
            m.clean_closures_committed(),
            m.committed_edges(),
            m.store_view() == store,
            forall|nm: Seq<char>| !m.profiles_view().contains_name(nm),
            forall|nm: Seq<char>| !m.graph_view().has_node(nm),
            m.graph_view().acyclic(),
    {
        let m = ConfigManager { store, profiles: ProfileSet::new(), graph: ProfileGraph::new() };
        proof {
            assert forall|nm: Seq<char>| #[trigger] m.backed_by_store(nm) by {
                assert(m.profiles.lookup(nm) is None);
            }
            assert forall|x: Seq<char>, q: Seq<Seq<char>>|
                #![trigger m.profiles_view().contains_name(x), store_path(m.store_view(), q)]
                m.profiles_view().contains_name(x) && closure_readable(m.store_view(), x)
                    && closure_acyclic(m.store_view(), x) && store_path(m.store_view(), q)
                    && q.first() == x implies m.profiles_view().contains_name(q.last()) by {
                assert(m.profiles.lookup(x) is None);
            }
        }
        m
    }

    /// Loads one profile and, recursively, its declared dependencies from
    /// the store, registering nodes and edges as it goes.  A failure in
    /// one dependency branch is recorded and the remaining branches are
    /// still tried; the profile is committed to the working set only when
    /// every branch went through.  A name already loaded, or already in
    /// progress higher up this very call chain, succeeds at once and
    /// changes nothing.
    fn load_profile_recursive(&mut self, name: &str, visiting: &mut Vec<String>) -> (r: Result<
        (),
        DependencyError,
    >)
        requires
            old(self).wf(),
            old(self).store_consistent(),
            old(self).loaded_registered(),
            old(self).clean_closures_committed(),
            old(self).committed_edges(),
            forall|k: int|
                0 <= k < old(visiting).deep_view().len() ==> old(self).graph_view().has_node(
                    #[trigger] old(visiting).deep_view()[k],
                ),
            forall|k: int|
                0 <= k < old(visiting).deep_view().len() - 1 ==> store_declares(
                    old(self).store_view(),
                    #[trigger] old(visiting).deep_view()[k],
                    old(visiting).deep_view()[k + 1],
                ),
            old(visiting).deep_view().len() > 0 ==> store_declares(
                old(self).store_view(),
                old(visiting).deep_view().last(),
                name@,
            ),
        ensures
            final(self).wf(),
            final(self).store_consistent(),
            final(self).loaded_registered(),
            final(self).clean_closures_committed(),
            final(self).committed_edges(),
            final(self).store_view() == old(self).store_view(),
            final(visiting).deep_view() == old(visiting).deep_view(),
            forall|nm: Seq<char>|
                #[trigger] old(self).profiles_view().contains_name(nm) ==> final(self).profiles_view().lookup(nm) == old(self).profiles_view().lookup(nm),
            forall|nm: Seq<char>|
                old(self).graph_view().has_node(nm) ==> final(self).graph_view().has_node(nm),
            forall|x: Seq<char>, y: Seq<char>|
                old(self).graph_view().dep(x, y) ==> final(self).graph_view().dep(x, y),
            forall|x: Seq<char>, y: Seq<char>|
                final(self).graph_view().dep(x, y) ==> old(self).graph_view().dep(x, y)
                    || store_declares(old(self).store_view(), x, y),
            old(self).graph_view().acyclic() ==> final(self).graph_view().acyclic(),
            forall|k: int|
                0 <= k < old(visiting).deep_view().len() && !old(self).profiles_view()
                    .contains_name(#[trigger] old(visiting).deep_view()[k]) ==> !final(self).profiles_view().contains_name(old(visiting).deep_view()[k]),
            old(self).profiles_view().contains_name(name@) ==> *final(self) == *old(self) && r is Ok,
            !old(self).profiles_view().contains_name(name@) && old(visiting).deep_view().contains(
                name@,
            ) ==> *final(self) == *old(self) && r is Ok,
            ((forall|x: Seq<char>, y: Seq<char>|
                #[trigger] old(self).committed_declares(x, y) ==> old(self).profiles_view().contains_name(y) || old(visiting).deep_view().contains(y)) && r is Ok)
                ==> (forall|x: Seq<char>, y: Seq<char>|
                #[trigger] final(self).committed_declares(x, y) ==> final(self).profiles_view().contains_name(y) || old(visiting).deep_view().contains(y)),
            closure_readable(old(self).store_view(), name@) && closure_acyclic(
                old(self).store_view(),
                name@,
            ) && graph_within_store(old(self).graph_view(), old(self).store_view()) ==> r is Ok,
            match old(self).store_view().lookup(name@) {
                Some(StoreRecord::Record(p)) => !old(self).profiles_view().contains_name(name@)
                    && !old(visiting).deep_view().contains(name@) ==> {
                    &&& (forall|j: int|
                        0 <= j < p.deps().len() ==> final(self).profiles_view().contains_name(
                            #[trigger] p.deps()[j],
                        ) || old(visiting).deep_view().contains(p.deps()[j]) || p.deps()[j]
                            == name@ || result_names_failed_dep(r, p.deps()[j]))
                    &&& (r is Ok ==> forall|j: int|
                        0 <= j < p.deps().len() ==> final(self).graph_view().dep(
                            name@,
                            #[trigger] p.deps()[j],
                        ))
                },
                _ => true,
            },
            match r {
                Ok(()) => old(self).profiles_view().contains_name(name@) || old(visiting).deep_view().contains(name@) || final(self).profiles_view().contains_name(
                    name@,
                ),
                Err(e) => {
                    &&& !old(self).profiles_view().contains_name(name@)
                    &&& !final(self).profiles_view().contains_name(name@)
                    &&& !old(visiting).deep_view().contains(name@)
                    &&& load_failure(old(self).store_view(), name@, e)
                    &&& match e {
                        DependencyError::ProfileNotFound(n) => n@ == name@ && old(self).store_view().lookup(name@) is None && *final(self) == *old(self),
                        DependencyError::ProfileIoError(n, _) => n@ == name@ && (old(self).store_view().lookup(name@) matches Some(StoreRecord::IoFailure(_)))
                            && *final(self) == *old(self),
                        DependencyError::ProfileParseError(n, _) => n@ == name@ && (old(self).store_view().lookup(name@) matches Some(StoreRecord::ParseFailure(_)))
                            && *final(self) == *old(self),
                        DependencyError::DependencyChain { profile, cause } => profile@ == name@
                            && (old(self).store_view().lookup(name@) matches Some(
                            StoreRecord::Record(_),
                        )),
                        DependencyError::MultipleErrors(v) => v@.len() >= 2 && (old(self).store_view().lookup(name@) matches Some(StoreRecord::Record(p))
                            && (forall|j: int|
                            0 <= j < v@.len() ==> dep_error_shape(
                                #[trigger] v@[j],
                                name@,
                                p.deps(),
                                final(self).graph_view(),
                                old(self).store_view(),
                            ))),
                        DependencyError::CircularDependency(p) => {
                            let dv = p.deep_view();
                            &&& dv.len() >= 3
                            &&& dv[0] == name@
                            &&& dv[dv.len() - 2] == name@
                            &&& final(self).graph_view().is_path(dv.subrange(1, dv.len() - 1))
                            &&& (old(self).store_view().lookup(name@) matches Some(
                                StoreRecord::Record(_),
                            ))
                        },
                        DependencyError::DependencyNotFound(_, _) => false,
                    }
                },
            },
        decreases unvisited_count(
            old(self).store_view().names_view(),
            old(visiting).deep_view(),
        ),
    {
        let ghost m0 = *self;
        let ghost vdv0 = visiting.deep_view();
        if self.profiles.has_profile(name) {
            proof {
                assert forall|x: Seq<char>, y: Seq<char>|
                    #[trigger] self.committed_declares(x, y) implies m0.committed_declares(
                    x,
                    y,
                ) by {}
            }
            return Ok(());
        }
        if names_contains(visiting, name) {
            proof {
                assert forall|x: Seq<char>, y: Seq<char>|
                    #[trigger] self.committed_declares(x, y) implies m0.committed_declares(
                    x,
                    y,
                ) by {}
            }
            return Ok(());
        }
        let prof = match self.store.get_record(name) {
            None => {
                proof {
                    if closure_readable(self.store_view(), name@) {
                        lemma_store_reaches_refl(self.store_view(), name@);
                        assert(self.store_view().lookup(name@) matches Some(
                            StoreRecord::Record(_),
                        ));
                    }
                }
                return Err(DependencyError::ProfileNotFound(name.to_owned()));
            },
            Some(StoreRecord::IoFailure(c)) => {
                proof {
                    if closure_readable(self.store_view(), name@) {
                        lemma_store_reaches_refl(self.store_view(), name@);
                        assert(self.store_view().lookup(name@) matches Some(
                            StoreRecord::Record(_),
                        ));
                    }
                }
                return Err(DependencyError::ProfileIoError(name.to_owned(), c.clone()));
            },
            Some(StoreRecord::ParseFailure(c)) => {
                proof {
                    if closure_readable(self.store_view(), name@) {
                        lemma_store_reaches_refl(self.store_view(), name@);
                        assert(self.store_view().lookup(name@) matches Some(
                            StoreRecord::Record(_),
                        ));
                    }
                }
                return Err(DependencyError::ProfileParseError(name.to_owned(), c.clone()));
            },
            Some(StoreRecord::Record(p)) => {
                proof {
                    assert(self.store_view().lookup(name@) == Some(StoreRecord::Record(*p)));
                }
                p.duplicate()
            },
        };
        proof {
            assert(self.store.names_view().contains(name@)) by {
                lemma_assoc_get_none(self.store.view_records(), name@);
                let j = choose|j: int|
                    0 <= j < self.store.view_records().len() && self.store.view_records()[j].0
                        == name@;
                assert(assoc_keys(self.store.view_records())[j] == name@);
            }
            lemma_unvisited_push(self.store.names_view(), vdv0, name@);
            lemma_unvisited_nonneg(self.store.names_view(), vdv0.push(name@));
        }
        visiting.push(name.to_owned());
        self.graph.add_node(name.to_owned());
        let mut errors: Vec<DependencyError> = Vec::new();
        let ghost mut idxs: Seq<int> = Seq::empty();
        let deg = prof.profiles.len();
        proof {
            assert(visiting.deep_view() =~= vdv0.push(name@));
            assert forall|nm: Seq<char>| #[trigger] self.backed_by_store(nm) by {
                assert(m0.backed_by_store(nm));
                assert(self.profiles_view() == m0.profiles_view());
                assert(self.store_view() == m0.store_view());
            }
            if m0.graph_view().acyclic() {
                self.graph_view().lemma_acyclic_mono(m0.graph_view());
            }
            assert forall|nm: Seq<char>|
                #[trigger] self.profiles_view().contains_name(nm) implies self.graph_view()
                .has_node(nm) by {
                assert(m0.profiles_view().contains_name(nm));
            }
            assert forall|x: Seq<char>, q2: Seq<Seq<char>>|
                #![trigger self.profiles_view().contains_name(x), store_path(self.store_view(), q2)]
                self.profiles_view().contains_name(x) && closure_readable(self.store_view(), x)
                    && closure_acyclic(self.store_view(), x) && store_path(self.store_view(), q2)
                    && q2.first() == x implies self.profiles_view().contains_name(
                q2.last()) by {
                assert(self.profiles_view() == m0.profiles_view());
                assert(self.store_view() == m0.store_view());
                assert(m0.profiles_view().contains_name(x));
            }
            assert forall|x: Seq<char>, y: Seq<char>|
                #[trigger] self.committed_declares(x, y) implies self.graph_view().dep(x, y) by {
                assert(m0.committed_declares(x, y));
                assert(m0.graph_view().dep(x, y));
            }
            if (forall|x2: Seq<char>, y2: Seq<char>|
                #[trigger] m0.committed_declares(x2, y2) ==> m0.profiles_view().contains_name(y2)
                    || vdv0.contains(y2)) {
                assert forall|x: Seq<char>, y: Seq<char>|
                    #[trigger] self.committed_declares(x, y) implies self.profiles_view().contains_name(y) || vdv0.contains(y) || y == name@ by {
                    assert(self.profiles_view() == m0.profiles_view());
                    assert(m0.committed_declares(x, y));
                }
            }
        }
        for d in 0..deg
            invariant
                m0 == *old(self),
                vdv0 == old(visiting).deep_view(),
                deg == prof.deps().len(),
                self.wf(),
                self.store_consistent(),
                self.loaded_registered(),
                self.clean_closures_committed(),
                self.committed_edges(),
                self.store_view() == m0.store_view(),
                forall|k: int|
                    0 <= k < vdv0.len() - 1 ==> store_declares(
                        m0.store_view(),
                        #[trigger] vdv0[k],
                        vdv0[k + 1],
                    ),
                vdv0.len() > 0 ==> store_declares(m0.store_view(), vdv0.last(), name@),
                self.store_view().lookup(name@) matches Some(StoreRecord::Record(q)) && prof.vars()
                    == q.vars() && prof.deps() == q.deps(),
                visiting.deep_view() == vdv0.push(name@),
                unvisited_count(m0.store_view().names_view(), visiting.deep_view())
                    < unvisited_count(m0.store_view().names_view(), vdv0),
                0 <= unvisited_count(m0.store_view().names_view(), visiting.deep_view()),
                self.graph_view().has_node(name@),
                forall|k: int|
                    0 <= k < vdv0.len() ==> self.graph_view().has_node(#[trigger] vdv0[k]),
                !m0.profiles_view().contains_name(name@),
                !self.profiles_view().contains_name(name@),
                !vdv0.contains(name@),
                forall|nm: Seq<char>|
                    #[trigger] m0.profiles_view().contains_name(nm) ==> self.profiles_view()
                        .lookup(nm) == m0.profiles_view().lookup(nm),
                forall|nm: Seq<char>|
                    m0.graph_view().has_node(nm) ==> self.graph_view().has_node(nm),
                forall|x: Seq<char>, y: Seq<char>|
                    m0.graph_view().dep(x, y) ==> self.graph_view().dep(x, y),
                forall|x: Seq<char>, y: Seq<char>|
                    self.graph_view().dep(x, y) ==> m0.graph_view().dep(x, y) || store_declares(
                        m0.store_view(),
                        x,
                        y,
                    ),
                m0.graph_view().acyclic() ==> self.graph_view().acyclic(),
                forall|k: int|
                    0 <= k < vdv0.len() && !m0.profiles_view().contains_name(
                        #[trigger] vdv0[k],
                    ) ==> !self.profiles_view().contains_name(vdv0[k]),
                closure_readable(m0.store_view(), name@) && closure_acyclic(
                    m0.store_view(),
                    name@,
                ) && graph_within_store(m0.graph_view(), m0.store_view()) ==> errors@.len() == 0,
                forall|k: int|
                    0 <= k < errors@.len() ==> dep_error_shape(
                        #[trigger] errors@[k],
                        name@,
                        prof.deps(),
                        self.graph_view(),
                        m0.store_view(),
                    ),
                forall|d2: int|
                    0 <= d2 < d ==> self.profiles_view().contains_name(
                        #[trigger] prof.deps()[d2],
                    ) || vdv0.contains(prof.deps()[d2]) || prof.deps()[d2] == name@ || (exists|
                        k: int,
                    |
                        0 <= k < errors@.len() && ((#[trigger] errors@[k]) matches DependencyError::DependencyChain {
                            profile,
                            cause,
                        } && failure_names(*cause, prof.deps()[d2]))),
                idxs.len() == errors@.len(),
                forall|k: int, k2: int| 0 <= k < k2 < idxs.len() ==> idxs[k] < idxs[k2],
                forall|k: int|
                    0 <= k < idxs.len() ==> 0 <= #[trigger] idxs[k] < prof.deps().len()
                        && idxs[k] < d as int && member_failure(
                        m0.store_view(),
                        name@,
                        prof.deps()[idxs[k]],
                        errors@[k],
                    ),
                errors@.len() == 0 ==> forall|d2: int|
                    0 <= d2 < d ==> self.graph_view().dep(name@, #[trigger] prof.deps()[d2]),
                ((forall|x: Seq<char>, y: Seq<char>|
                    #[trigger] m0.committed_declares(x, y) ==> m0.profiles_view().contains_name(
                        y,
                    ) || vdv0.contains(y)) && errors@.len() == 0) ==> (forall|
                    x: Seq<char>,
                    y: Seq<char>,
                |
                    #[trigger] self.committed_declares(x, y) ==> self.profiles_view().contains_name(y) || vdv0.contains(y) || y == name@),
        {
            let dep = prof.profiles[d].clone();
            let ghost gpre = self.graph_view();
            let ghost ppre = self.profiles_view();
            let ghost mpre = *self;
            proof {
                assert(prof.deps()[d as int] == dep@);
                assert(prof.deps().contains(dep@));
                assert(store_declares(m0.store_view(), name@, dep@));
            }
            proof {
                let w = vdv0.push(name@);
                assert forall|k: int| 0 <= k < w.len() - 1 implies store_declares(
                    m0.store_view(),
                    #[trigger] w[k],
                    w[k + 1],
                ) by {
                    if k < vdv0.len() - 1 {
                        assert(w[k] == vdv0[k] && w[k + 1] == vdv0[k + 1]);
                    } else {
                        assert(w[k] == vdv0.last() && w[k + 1] == name@);
                    }
                }
                assert(w.last() == name@);
                assert(store_declares(m0.store_view(), name@, dep@));
            }
            let res = self.load_profile_recursive(dep.as_str(), visiting);
            proof {
                assert(visiting.deep_view() == vdv0.push(name@));
                assert(!self.profiles_view().contains_name(name@)) by {
                    assert(vdv0.push(name@)[vdv0.len() as int] == name@);
                    assert(vdv0.push(name@).contains(name@));
                    assert(!ppre.contains_name(name@));
                }
                assert forall|nm: Seq<char>|
                    #[trigger] m0.profiles_view().contains_name(nm) implies self.profiles_view()
                    .lookup(nm) == m0.profiles_view().lookup(nm) by {
                    assert(ppre.lookup(nm) == m0.profiles_view().lookup(nm));
                    assert(ppre.contains_name(nm));
                }
                assert forall|k: int|
                    0 <= k < vdv0.len() && !m0.profiles_view().contains_name(
                        #[trigger] vdv0[k],
                    ) implies !self.profiles_view().contains_name(vdv0[k]) by {
                    assert(vdv0.push(name@)[k] == vdv0[k]);
                    assert(!ppre.contains_name(vdv0[k]));
                }
                assert forall|x: Seq<char>, y: Seq<char>|
                    self.graph_view().dep(x, y) implies m0.graph_view().dep(x, y)
                    || store_declares(m0.store_view(), x, y) by {
                    if !gpre.dep(x, y) {
                        assert(store_declares(mpre.store_view(), x, y));
                    }
                }
                assert forall|k: int|
                    0 <= k < errors@.len() implies dep_error_shape(
                    #[trigger] errors@[k],
                    name@,
                    prof.deps(),
                    self.graph_view(),
                    m0.store_view(),
                ) by {
                    lemma_dep_error_shape_monotone(
                        errors@[k],
                        name@,
                        prof.deps(),
                        m0.store_view(),
                        gpre,
                        self.graph_view(),
                    );
                }
                if (forall|x2: Seq<char>, y2: Seq<char>|
                #[trigger] m0.committed_declares(x2, y2) ==> m0.profiles_view().contains_name(y2)
                    || vdv0.contains(y2)) && errors@.len() == 0 && res is Ok {
                    assert forall|x2: Seq<char>, y2: Seq<char>|
                        #[trigger] mpre.committed_declares(x2, y2) implies mpre.profiles_view().contains_name(y2) || vdv0.push(name@).contains(y2) by {
                        assert(mpre.profiles_view().contains_name(y2) || vdv0.contains(y2) || y2
                            == name@);
                        if vdv0.contains(y2) {
                            let k = choose|k: int| 0 <= k < vdv0.len() && vdv0[k] == y2;
                            assert(vdv0.push(name@)[k] == y2);
                        } else if y2 == name@ && !mpre.profiles_view().contains_name(y2) {
                            assert(vdv0.push(name@)[vdv0.len() as int] == y2);
                        }
                    }
                    assert forall|x2: Seq<char>, y2: Seq<char>|
                        #[trigger] self.committed_declares(x2, y2) implies self.profiles_view().contains_name(y2) || vdv0.contains(y2) || y2 == name@ by {
                        assert(self.profiles_view().contains_name(y2) || vdv0.push(
                            name@,
                        ).contains(y2));
                        if !self.profiles_view().contains_name(y2) {
                            let k = choose|k: int|
                                0 <= k < vdv0.push(name@).len() && vdv0.push(name@)[k] == y2;
                            if k < vdv0.len() {
                                assert(vdv0[k] == y2);
                            }
                        }
                    }
                }
                assert forall|d2: int|
                    0 <= d2 < d implies self.profiles_view().contains_name(
                    #[trigger] prof.deps()[d2],
                ) || vdv0.contains(prof.deps()[d2]) || prof.deps()[d2] == name@ || (exists|k: int|
                    0 <= k < errors@.len() && ((#[trigger] errors@[k]) matches DependencyError::DependencyChain {
                        profile,
                        cause,
                    } && failure_names(*cause, prof.deps()[d2]))) by {
                    if ppre.contains_name(prof.deps()[d2]) {
                        assert(self.profiles_view().lookup(prof.deps()[d2]) == ppre.lookup(
                            prof.deps()[d2],
                        ));
                    }
                }
            }
            match res {
                Err(e) => {
                    proof {
                        // under a readable, acyclic closure no branch can
                        // fail: the branch inherits the closure
                        if closure_readable(m0.store_view(), name@) && closure_acyclic(
                            m0.store_view(),
                            name@,
                        ) && graph_within_store(m0.graph_view(), m0.store_view()) {
                            assert forall|x: Seq<char>|
                                store_reaches(m0.store_view(), dep@, x) implies (
                            #[trigger] m0.store_view().lookup(x)) matches Some(
                                StoreRecord::Record(_),
                            ) by {
                                lemma_store_reaches_prepend(m0.store_view(), name@, dep@, x);
                            }
                            assert(closure_acyclic(m0.store_view(), dep@)) by {
                                if exists|q: Seq<Seq<char>>|
                                    store_path(m0.store_view(), q) && q.len() >= 2 && q.first()
                                        == q.last() && store_reaches(
                                        m0.store_view(),
                                        dep@,
                                        q.first(),
                                    ) {
                                    let q = choose|q: Seq<Seq<char>>|
                                        store_path(m0.store_view(), q) && q.len() >= 2
                                            && q.first() == q.last() && store_reaches(
                                            m0.store_view(),
                                            dep@,
                                            q.first(),
                                        );
                                    lemma_store_reaches_prepend(
                                        m0.store_view(),
                                        name@,
                                        dep@,
                                        q.first(),
                                    );
                                }
                            }
                            assert(graph_within_store(gpre, m0.store_view())) by {
                                assert forall|x: Seq<char>, y: Seq<char>|
                                    #[trigger] gpre.dep(x, y) implies store_declares(
                                    m0.store_view(),
                                    x,
                                    y,
                                ) by {
                                    assert(m0.graph_view().dep(x, y) || store_declares(
                                        m0.store_view(),
                                        x,
                                        y,
                                    ));
                                }
                            }
                            assert(res is Ok);
                            assert(false);
                        }
                        // the recorded failure names the dependency
                        assert(failure_names(e, dep@)) by {
                            match &e {
                                DependencyError::ProfileNotFound(n) => {
                                    assert(n@ == dep@);
                                },
                                DependencyError::CircularDependency(p) => {
                                    assert(p.deep_view()[0] == dep@);
                                },
                                DependencyError::DependencyChain { profile, cause } => {
                                    assert(profile@ == dep@);
                                },
                                _ => {},
                            }
                        }
                        assert(load_failure(m0.store_view(), dep@, e));
                    }
                    let ghost epre = errors@;
                    errors.push(
                        DependencyError::DependencyChain {
                            profile: name.to_owned(),
                            cause: Box::new(e),
                        },
                    );
                    proof {
                        idxs = idxs.push(d as int);
                        assert(errors@[epre.len() as int] matches DependencyError::DependencyChain {
                            profile,
                            cause,
                        } && failure_names(*cause, prof.deps()[d as int]));
                        assert(member_failure(
                            m0.store_view(),
                            name@,
                            prof.deps()[d as int],
                            errors@[epre.len() as int],
                        ));
                        assert forall|k: int|
                            0 <= k < idxs.len() implies 0 <= #[trigger] idxs[k]
                            < prof.deps().len() && idxs[k] < d as int + 1 && member_failure(
                            m0.store_view(),
                            name@,
                            prof.deps()[idxs[k]],
                            errors@[k],
                        ) by {
                            if k < idxs.len() - 1 {
                                assert(errors@[k] == epre[k]);
                            } else {
                                assert(idxs[k] == d as int);
                            }
                        }
                        assert forall|d2: int|
                            0 <= d2 < d + 1 implies self.profiles_view().contains_name(
                            #[trigger] prof.deps()[d2],
                        ) || vdv0.contains(prof.deps()[d2]) || prof.deps()[d2] == name@ || (
                        exists|k: int|
                            0 <= k < errors@.len() && ((#[trigger] errors@[k]) matches DependencyError::DependencyChain {
                                profile,
                                cause,
                            } && failure_names(*cause, prof.deps()[d2]))) by {
                            if d2 < d {
                                if exists|k: int|
                                    0 <= k < epre.len() && ((#[trigger] epre[k]) matches DependencyError::DependencyChain {
                                        profile,
                                        cause,
                                    } && failure_names(*cause, prof.deps()[d2])) {
                                    let k = choose|k: int|
                                        0 <= k < epre.len() && ((#[trigger] epre[k]) matches DependencyError::DependencyChain {
                                            profile,
                                            cause,
                                        } && failure_names(*cause, prof.deps()[d2]));
                                    assert(errors@[k] == epre[k]);
                                }
                            }
                        }
                    }
                },
                Ok(()) => {
                    proof {
                        // the loaded or in-progress dependency has its node
                        assert(self.graph_view().has_node(dep@)) by {
                            if ppre.contains_name(dep@) {
                                assert(self.profiles_view().lookup(dep@) == ppre.lookup(dep@));
                                assert(self.profiles_view().contains_name(dep@));
                            } else if vdv0.push(name@).contains(dep@) {
                                let k = choose|k: int|
                                    0 <= k < vdv0.push(name@).len() && vdv0.push(name@)[k]
                                        == dep@;
                                if k < vdv0.len() {
                                    assert(vdv0[k] == dep@);
                                }
                            } else {
                                assert(self.profiles_view().contains_name(dep@));
                            }
                        }
                    }
                    let ghost mpre2 = *self;
                    let ghost gpre2 = self.graph_view();
                    let eres = self.graph.add_dependency(name, dep.as_str());
                    proof {
                        assert forall|k: int|
                            0 <= k < errors@.len() implies dep_error_shape(
                            #[trigger] errors@[k],
                            name@,
                            prof.deps(),
                            self.graph_view(),
                            m0.store_view(),
                        ) by {
                            lemma_dep_error_shape_monotone(
                                errors@[k],
                                name@,
                                prof.deps(),
                                m0.store_view(),
                                gpre2,
                                self.graph_view(),
                            );
                        }
                        assert forall|nm: Seq<char>| #[trigger] self.backed_by_store(nm) by {
                            assert(mpre2.backed_by_store(nm));
                            assert(self.profiles_view() == mpre2.profiles_view());
                            assert(self.store_view() == mpre2.store_view());
                        }
                        assert forall|nm: Seq<char>|
                            #[trigger] self.profiles_view().contains_name(nm) implies
                            self.graph_view().has_node(nm) by {
                            assert(mpre2.profiles_view().contains_name(nm));
                        }
                        assert forall|x: Seq<char>, q2: Seq<Seq<char>>|
                            #![trigger self.profiles_view().contains_name(x), store_path(self.store_view(), q2)]
                            self.profiles_view().contains_name(x) && closure_readable(
                                self.store_view(),
                                x,
                            ) && closure_acyclic(self.store_view(), x) && store_path(
                                self.store_view(),
                                q2,
                            ) && q2.first() == x implies self.profiles_view().contains_name(
                            q2.last()) by {
                            assert(self.profiles_view() == mpre2.profiles_view());
                            assert(self.store_view() == mpre2.store_view());
                            assert(mpre2.profiles_view().contains_name(x));
                        }
                        assert forall|x: Seq<char>, y: Seq<char>|
                            #[trigger] self.committed_declares(x, y) implies self.graph_view()
                            .dep(x, y) by {
                            assert(mpre2.committed_declares(x, y));
                            assert(mpre2.graph_view().dep(x, y));
                        }
                        if (forall|x2: Seq<char>, y2: Seq<char>|
                #[trigger] m0.committed_declares(x2, y2) ==> m0.profiles_view().contains_name(y2)
                    || vdv0.contains(y2)) && errors@.len() == 0 {
                            assert forall|x2: Seq<char>, y2: Seq<char>|
                                #[trigger] self.committed_declares(x2, y2) implies self.profiles_view().contains_name(y2) || vdv0.contains(y2) || y2 == name@ by {
                                assert(self.profiles_view() == mpre2.profiles_view());
                                assert(mpre2.committed_declares(x2, y2));
                            }
                        }
                        assert forall|x: Seq<char>, y: Seq<char>|
                            self.graph_view().dep(x, y) implies m0.graph_view().dep(x, y)
                            || store_declares(m0.store_view(), x, y) by {
                            if !gpre2.dep(x, y) {
                                assert(x == name@ && y == dep@);
                            }
                        }
                    }
                    proof {
                        assert(self.profiles_view().contains_name(dep@) || vdv0.contains(dep@)
                            || dep@ == name@) by {
                            if ppre.contains_name(dep@) {
                                assert(self.profiles_view().lookup(dep@) == ppre.lookup(dep@));
                            } else if vdv0.push(name@).contains(dep@) {
                                let k = choose|k: int|
                                    0 <= k < vdv0.push(name@).len() && vdv0.push(name@)[k]
                                        == dep@;
                                if k < vdv0.len() {
                                    assert(vdv0[k] == dep@);
                                    assert(vdv0.contains(dep@));
                                }
                            }
                        }
                    }
                    match eres {
                        Ok(()) => {
                        },
                        Err(e2) => {
                            proof {
                                match &e2 {
                                    DependencyError::CircularDependency(p) => {
                                        let dv = p.deep_view();
                                        assert(dv[0] == name@ && dv[dv.len() - 2] == name@);
                                        // a rejected edge closes a loop; in
                                        // a readable, acyclic closure no
                                        // loop can close
                                        if closure_readable(m0.store_view(), name@)
                                            && closure_acyclic(m0.store_view(), name@)
                                            && graph_within_store(
                                            m0.graph_view(),
                                            m0.store_view(),
                                        ) {
                                            assert(gpre2.reaches(dep@, name@));
                                            let w = choose|w: Seq<Seq<char>>|
                                                gpre2.is_path(w) && w.first() == dep@ && w.last()
                                                    == name@;
                                            assert(graph_within_store(
                                                gpre2,
                                                m0.store_view(),
                                            )) by {
                                                assert forall|x: Seq<char>, y: Seq<char>|
                                                    #[trigger] gpre2.dep(x, y) implies
                                                    store_declares(m0.store_view(), x, y) by {
                                                    assert(m0.graph_view().dep(x, y)
                                                        || store_declares(
                                                        m0.store_view(),
                                                        x,
                                                        y,
                                                    ));
                                                }
                                            }
                                            lemma_graph_path_in_store(
                                                gpre2,
                                                m0.store_view(),
                                                w,
                                            );
                                            let q = seq![name@] + w;
                                            assert forall|k: int|
                                                0 <= k < q.len() - 1 implies store_declares(
                                                m0.store_view(),
                                                #[trigger] q[k],
                                                q[k + 1],
                                            ) by {
                                                if k == 0 {
                                                    assert(q[0] == name@ && q[1] == w[0]);
                                                    assert(w[0] == dep@);
                                                } else {
                                                    assert(q[k] == w[k - 1] && q[k + 1] == w[k]);
                                                }
                                            }
                                            assert(store_path(m0.store_view(), q));
                                            assert(q.first() == name@ && q.last() == name@);
                                            assert(q.len() >= 2);
                                            lemma_store_reaches_refl(m0.store_view(), name@);
                                            assert(false);
                                        }
                                    },
                                    DependencyError::ProfileNotFound(_) => {
                                        assert(gpre2.has_node(name@));
                                        assert(false);
                                    },
                                    DependencyError::DependencyNotFound(_, _) => {
                                        assert(gpre2.has_node(dep@));
                                        assert(false);
                                    },
                                    _ => {},
                                }
                                assert(dep_error_shape(
                                    e2,
                                    name@,
                                    prof.deps(),
                                    self.graph_view(),
                                    m0.store_view(),
                                ));
                            }
                            let ghost epre2 = errors@;
                            errors.push(e2);
                            proof {
                                idxs = idxs.push(d as int);
                                assert(member_failure(
                                    m0.store_view(),
                                    name@,
                                    prof.deps()[d as int],
                                    e2,
                                )) by {
                                    match &e2 {
                                        DependencyError::CircularDependency(p) => {
                                            let dv = p.deep_view();
                                            assert(dv[0] == name@ && dv.last() == dep@);
                                        },
                                        _ => {
                                            assert(false);
                                        },
                                    }
                                }
                                assert forall|k: int|
                                    0 <= k < idxs.len() implies 0 <= #[trigger] idxs[k]
                                    < prof.deps().len() && idxs[k] < d as int + 1
                                    && member_failure(
                                    m0.store_view(),
                                    name@,
                                    prof.deps()[idxs[k]],
                                    errors@[k],
                                ) by {
                                    if k < idxs.len() - 1 {
                                        assert(errors@[k] == epre2[k]);
                                    } else {
                                        assert(idxs[k] == d as int);
                                        assert(errors@[k] == e2);
                                    }
                                }
                                assert forall|d2: int|
                                    0 <= d2 < d + 1 implies self.profiles_view().contains_name(
                                    #[trigger] prof.deps()[d2],
                                ) || vdv0.contains(prof.deps()[d2]) || prof.deps()[d2] == name@
                                    || (exists|k: int|
                                    0 <= k < errors@.len() && ((#[trigger] errors@[k]) matches DependencyError::DependencyChain {
                                        profile,
                                        cause,
                                    } && failure_names(*cause, prof.deps()[d2]))) by {
                                    if d2 < d {
                                        if exists|k: int|
                                            0 <= k < epre2.len() && ((#[trigger] epre2[k]) matches DependencyError::DependencyChain {
                                                profile,
                                                cause,
                                            } && failure_names(*cause, prof.deps()[d2])) {
                                            let k = choose|k: int|
                                                0 <= k < epre2.len() && ((#[trigger] epre2[k]) matches DependencyError::DependencyChain {
                                                    profile,
                                                    cause,
                                                } && failure_names(*cause, prof.deps()[d2]));
                                            assert(errors@[k] == epre2[k]);
                                        }
                                    }
                                }
                            }
                        },
                    }
                },
            }
        }
        let ghost vvec = visiting@;
        let _ = visiting.pop();
        proof {
            assert(visiting@ == vvec.drop_last());
            assert forall|k: int| 0 <= k < visiting.deep_view().len() implies visiting.deep_view()[
            k] == vdv0[k] by {
                assert(visiting@[k] == vvec[k]);
                assert(vvec[k]@ == vdv0.push(name@)[k]);
            }
            assert(visiting.deep_view() =~= vdv0);
        }
        if errors.len() > 0 {
            proof {
                if closure_readable(m0.store_view(), name@) && closure_acyclic(
                    m0.store_view(),
                    name@,
                ) && graph_within_store(m0.graph_view(), m0.store_view()) {
                    assert(false);
                }
            }
            if errors.len() == 1 {
                let ghost efull = errors@;
                let e = errors.pop().unwrap();
                proof {
                    assert(dep_error_shape(
                        e,
                        name@,
                        prof.deps(),
                        self.graph_view(),
                        m0.store_view(),
                    ));
                    assert(load_failure(m0.store_view(), name@, e)) by {
                        assert(efull[0] == e);
                        assert(member_failure(
                            m0.store_view(),
                            name@,
                            prof.deps()[idxs[0]],
                            e,
                        ));
                        let q = choose|q: Profile|
                            m0.store_view().lookup(name@) == Some(StoreRecord::Record(q));
                        assert(q.deps() == prof.deps());
                        assert(exists|i: int|
                            0 <= i < q.deps().len() && member_failure(
                                m0.store_view(),
                                name@,
                                #[trigger] q.deps()[i],
                                e,
                            )) by {
                            assert(member_failure(
                                m0.store_view(),
                                name@,
                                q.deps()[idxs[0]],
                                e,
                            ));
                        }
                    }
                    assert forall|j: int|
                        0 <= j < prof.deps().len() implies self.profiles_view().contains_name(
                        #[trigger] prof.deps()[j],
                    ) || vdv0.contains(prof.deps()[j]) || prof.deps()[j] == name@
                        || result_names_failed_dep(
                        Err::<(), DependencyError>(e),
                        prof.deps()[j],
                    ) by {
                        if exists|k: int|
                            0 <= k < efull.len() && ((#[trigger] efull[k]) matches DependencyError::DependencyChain {
                                profile,
                                cause,
                            } && failure_names(*cause, prof.deps()[j])) {
                            let k = choose|k: int|
                                0 <= k < efull.len() && ((#[trigger] efull[k]) matches DependencyError::DependencyChain {
                                    profile,
                                    cause,
                                } && failure_names(*cause, prof.deps()[j]));
                            assert(k == 0);
                            assert(efull[0] == e);
                        }
                    }
                }
                return Err(e);
            }
            proof {
                assert(errors@.len() >= 2);
                assert forall|j: int|
                    0 <= j < prof.deps().len() implies self.profiles_view().contains_name(
                    #[trigger] prof.deps()[j],
                ) || vdv0.contains(prof.deps()[j]) || prof.deps()[j] == name@
                    || result_names_failed_dep(
                    Err::<(), DependencyError>(DependencyError::MultipleErrors(errors)),
                    prof.deps()[j],
                ) by {}
                let q = choose|q: Profile|
                    m0.store_view().lookup(name@) == Some(StoreRecord::Record(q));
                assert(q.deps() == prof.deps());
                assert(multi_failure_ok(m0.store_view(), name@, q.deps(), errors@)) by {
                    assert(idxs.len() == errors@.len());
                    assert forall|j: int|
                        0 <= j < errors@.len() implies 0 <= #[trigger] idxs[j] < q.deps().len()
                        && member_failure(
                        m0.store_view(),
                        name@,
                        q.deps()[idxs[j]],
                        errors@[j],
                    ) by {}
                }
                assert(load_failure(
                    m0.store_view(),
                    name@,
                    DependencyError::MultipleErrors(errors),
                ));
            }
            return Err(DependencyError::MultipleErrors(errors));
        }
        let ghost mpre3 = *self;
        self.profiles.add_profile(name, prof);
        proof {
            assert(self.profiles_view().lookup(name@) == Some(prof));
            assert forall|nm: Seq<char>| #[trigger] self.backed_by_store(nm) by {
                if nm == name@ {
                } else {
                    assert(self.profiles_view().lookup(nm) == mpre3.profiles_view().lookup(nm));
                    assert(mpre3.backed_by_store(nm));
                }
            }
            assert forall|nm: Seq<char>|
                #[trigger] self.profiles_view().contains_name(nm) implies self.graph_view()
                .has_node(nm) by {
                if nm != name@ {
                    assert(mpre3.profiles_view().contains_name(nm));
                }
            }
            assert forall|j: int|
                0 <= j < prof.deps().len() implies self.profiles_view().contains_name(
                #[trigger] prof.deps()[j],
            ) || vdv0.contains(prof.deps()[j]) || prof.deps()[j] == name@ by {
                if mpre3.profiles_view().contains_name(prof.deps()[j]) {
                    if prof.deps()[j] != name@ {
                        assert(self.profiles_view().lookup(prof.deps()[j]) == mpre3.profiles_view().lookup(prof.deps()[j]));
                    }
                }
            }
            assert forall|x: Seq<char>, y: Seq<char>|
                #[trigger] self.committed_declares(x, y) implies self.graph_view().dep(x, y) by {
                if x == name@ {
                    assert(prof.deps().contains(y));
                    let j = choose|j: int| 0 <= j < prof.deps().len() && prof.deps()[j] == y;
                    assert(self.graph_view().dep(name@, prof.deps()[j]));
                } else {
                    assert(self.profiles_view().lookup(x) == mpre3.profiles_view().lookup(x));
                    assert(mpre3.committed_declares(x, y));
                    assert(mpre3.graph_view().dep(x, y));
                }
            }
            if (forall|x2: Seq<char>, y2: Seq<char>|
                #[trigger] m0.committed_declares(x2, y2) ==> m0.profiles_view().contains_name(y2)
                    || vdv0.contains(y2)) {
                assert forall|x2: Seq<char>, y2: Seq<char>|
                    #[trigger] self.committed_declares(x2, y2) implies self.profiles_view().contains_name(y2) || vdv0.contains(y2) by {
                    if x2 == name@ {
                        assert(prof.deps().contains(y2));
                        let j = choose|j: int|
                            0 <= j < prof.deps().len() && prof.deps()[j] == y2;
                        assert(mpre3.profiles_view().contains_name(prof.deps()[j])
                            || vdv0.contains(prof.deps()[j]) || prof.deps()[j] == name@);
                        if mpre3.profiles_view().contains_name(y2) && y2 != name@ {
                            assert(self.profiles_view().lookup(y2) == mpre3.profiles_view().lookup(y2));
                        }
                    } else {
                        assert(self.profiles_view().lookup(x2) == mpre3.profiles_view().lookup(
                            x2,
                        ));
                        assert(mpre3.committed_declares(x2, y2));
                        assert(mpre3.profiles_view().contains_name(y2) || vdv0.contains(y2) || y2
                            == name@);
                        if mpre3.profiles_view().contains_name(y2) && y2 != name@ {
                            assert(self.profiles_view().lookup(y2) == mpre3.profiles_view().lookup(y2));
                        }
                    }
                }
            }
            // a committed profile with a readable, acyclic closure pulls
            // its whole closure in: the new profile's dependencies are
            // all committed (a dependency on the visiting stack would
            // close a declared cycle), and each carries its own closure
            // by the invariant that held before the commit
            let st = m0.store_view();
            assert(self.store_view() == st);
            assert(mpre3.store_view() == st);
            assert forall|x: Seq<char>, q2: Seq<Seq<char>>|
                #![trigger self.profiles_view().contains_name(x), store_path(self.store_view(), q2)]
                self.profiles_view().contains_name(x) && closure_readable(self.store_view(), x)
                    && closure_acyclic(self.store_view(), x) && store_path(self.store_view(), q2)
                    && q2.first() == x implies self.profiles_view().contains_name(
                q2.last()) by {
                if x == name@ {
                    if q2.len() == 1 {
                        assert(q2.last() == name@);
                    } else {
                        let dnm = q2[1];
                        assert(store_declares(st, name@, dnm));
                        let rq = choose|rq: Profile|
                            st.lookup(name@) == Some(StoreRecord::Record(rq));
                        assert(rq.deps() == prof.deps());
                        assert(prof.deps().contains(dnm));
                        let j = choose|j: int|
                            0 <= j < prof.deps().len() && prof.deps()[j] == dnm;
                        assert(self.profiles_view().contains_name(prof.deps()[j]) || vdv0.contains(
                            prof.deps()[j],
                        ) || prof.deps()[j] == name@);
                        if vdv0.contains(dnm) {
                            let k = choose|k: int| 0 <= k < vdv0.len() && vdv0[k] == dnm;
                            let c = seq![name@] + vdv0.subrange(k, vdv0.len() as int) + seq![
                                name@,
                            ];
                            let m = vdv0.len() - k;
                            assert(c.len() == m + 2);
                            assert forall|t: int| 0 <= t < c.len() - 1 implies store_declares(
                                st,
                                #[trigger] c[t],
                                c[t + 1],
                            ) by {
                                if t == 0 {
                                    assert(c[0] == name@ && c[1] == vdv0[k]);
                                } else if t < m {
                                    assert(c[t] == vdv0[k + t - 1]);
                                    assert(c[t + 1] == vdv0[k + t]);
                                    assert(store_declares(st, vdv0[k + t - 1], vdv0[k + t]));
                                } else {
                                    assert(t == m);
                                    assert(c[t] == vdv0[vdv0.len() - 1]);
                                    assert(c[t + 1] == name@);
                                    assert(store_declares(st, vdv0.last(), name@));
                                }
                            }
                            assert(store_path(st, c));
                            assert(c.first() == name@ && c.last() == name@ && c.len() >= 2);
                            lemma_store_reaches_refl(st, name@);
                            assert(!closure_acyclic(st, name@));
                            assert(false);
                        } else if dnm == name@ {
                            let c = seq![name@, name@];
                            assert(c[0] == name@ && c[1] == name@);
                            assert(store_path(st, c));
                            assert(c.first() == name@ && c.last() == name@);
                            lemma_store_reaches_refl(st, name@);
                            assert(!closure_acyclic(st, name@));
                            assert(false);
                        } else {
                            assert(self.profiles_view().contains_name(dnm));
                            assert(dnm != name@);
                            assert(mpre3.profiles_view().contains_name(dnm)) by {
                                assert(self.profiles_view().lookup(dnm) == mpre3.profiles_view().lookup(dnm));
                            }
                            lemma_clean_closure_step(st, name@, dnm);
                            let tail = q2.drop_first();
                            assert forall|t: int|
                                0 <= t < tail.len() - 1 implies store_declares(
                                st,
                                #[trigger] tail[t],
                                tail[t + 1],
                            ) by {
                                assert(tail[t] == q2[t + 1] && tail[t + 1] == q2[t + 2]);
                            }
                            assert(store_path(st, tail));
                            assert(store_path(mpre3.store_view(), tail));
                            assert(tail.first() == dnm && tail.last() == q2.last());
                            assert(mpre3.profiles_view().contains_name(tail.last()));
                            if q2.last() == name@ {
                            } else {
                                assert(self.profiles_view().lookup(q2.last()) == mpre3.profiles_view().lookup(q2.last()));
                            }
                        }
                    }
                } else {
                    assert(mpre3.profiles_view().contains_name(x)) by {
                        assert(self.profiles_view().lookup(x) == mpre3.profiles_view().lookup(x));
                    }
                    assert(store_path(mpre3.store_view(), q2));
                    assert(mpre3.profiles_view().contains_name(q2.last()));
                    if q2.last() == name@ {
                    } else {
                        assert(self.profiles_view().lookup(q2.last()) == mpre3.profiles_view().lookup(q2.last()));
                    }
                }
            }
        }
        Ok(())
    }
}

impl ConfigManager {
    /// Loads `name` and its transitive dependencies from the store.  A
    /// name whose declared closure is fully readable and closes no cycle
    /// against the graph loads and commits the whole closure; an
    /// already-loaded name changes nothing.  On failure nothing is
    /// committed for `name`, every failure in the result is the genuine
    /// failure of a distinct declared branch, in declaration order, and
    /// every branch that is not named among the failures stays loaded.
    /// When the loaded set is closed under declared dependencies and the
    /// graph is free of cycles, success is only possible if no declared
    /// cycle is reachable from `name`.
    pub fn load_profile(&mut self, name: &str) -> (r: Result<(), DependencyError>)
        requires
            old(self).wf(),
            old(self).store_consistent(),
            old(self).loaded_registered(),
            old(self).clean_closures_committed(),
            old(self).committed_edges(),
        ensures
            final(self).wf(),
            final(self).store_consistent(),
            final(self).loaded_registered(),
            final(self).clean_closures_committed(),
            final(self).committed_edges(),
            final(self).store_view() == old(self).store_view(),
            forall|nm: Seq<char>|
                #[trigger] old(self).profiles_view().contains_name(nm) ==> final(self).profiles_view().lookup(nm) == old(self).profiles_view().lookup(nm),
            forall|nm: Seq<char>|
                old(self).graph_view().has_node(nm) ==> final(self).graph_view().has_node(nm),
            forall|x: Seq<char>, y: Seq<char>|
                old(self).graph_view().dep(x, y) ==> final(self).graph_view().dep(x, y),
            forall|x: Seq<char>, y: Seq<char>|
                final(self).graph_view().dep(x, y) ==> old(self).graph_view().dep(x, y)
                    || store_declares(old(self).store_view(), x, y),
            old(self).graph_view().acyclic() ==> final(self).graph_view().acyclic(),
            old(self).profiles_view().contains_name(name@) ==> *final(self) == *old(self) && r is Ok,
            ((forall|x: Seq<char>, y: Seq<char>|
                #[trigger] old(self).committed_declares(x, y) ==> old(self).profiles_view().contains_name(y)) && r is Ok)
                ==> (forall|x: Seq<char>, y: Seq<char>|
                #[trigger] final(self).committed_declares(x, y) ==> final(self).profiles_view().contains_name(y)),
            ((forall|x: Seq<char>, y: Seq<char>|
                #[trigger] old(self).committed_declares(x, y) ==> old(self).profiles_view().contains_name(y)) && old(self).graph_view().acyclic() && r is Ok)
                ==> closure_acyclic(old(self).store_view(), name@),
            closure_readable(old(self).store_view(), name@) && closure_acyclic(
                old(self).store_view(),
                name@,
            ) && graph_within_store(old(self).graph_view(), old(self).store_view()) ==> (r is Ok
                && (forall|q: Seq<Seq<char>>|
                store_path(old(self).store_view(), q) && q.first() == name@
                    ==> final(self).profiles_view().contains_name(#[trigger] q.last()))),
            match old(self).store_view().lookup(name@) {
                Some(StoreRecord::Record(p)) => !old(self).profiles_view().contains_name(name@)
                    ==> {
                    &&& (forall|j: int|
                        0 <= j < p.deps().len() ==> final(self).profiles_view().contains_name(
                            #[trigger] p.deps()[j],
                        ) || p.deps()[j] == name@ || result_names_failed_dep(r, p.deps()[j]))
                    &&& (r is Ok ==> forall|j: int|
                        0 <= j < p.deps().len() ==> final(self).graph_view().dep(
                            name@,
                            #[trigger] p.deps()[j],
                        ))
                },
                _ => true,
            },
            match r {
                Ok(()) => final(self).profiles_view().contains_name(name@),
                Err(e) => {
                    &&& !old(self).profiles_view().contains_name(name@)
                    &&& !final(self).profiles_view().contains_name(name@)
                    &&& load_failure(old(self).store_view(), name@, e)
                    &&& match e {
                        DependencyError::ProfileNotFound(n) => n@ == name@ && old(self).store_view().lookup(name@) is None && *final(self) == *old(self),
                        DependencyError::ProfileIoError(n, _) => n@ == name@ && (old(self).store_view().lookup(name@) matches Some(StoreRecord::IoFailure(_)))
                            && *final(self) == *old(self),
                        DependencyError::ProfileParseError(n, _) => n@ == name@ && (old(self).store_view().lookup(name@) matches Some(StoreRecord::ParseFailure(_)))
                            && *final(self) == *old(self),
                        DependencyError::DependencyChain { profile, cause } => profile@ == name@
                            && (old(self).store_view().lookup(name@) matches Some(
                            StoreRecord::Record(_),
                        )),
                        DependencyError::MultipleErrors(v) => v@.len() >= 2 && (old(self).store_view().lookup(name@) matches Some(StoreRecord::Record(p))
                            && (forall|j: int|
                            0 <= j < v@.len() ==> dep_error_shape(
                                #[trigger] v@[j],
                                name@,
                                p.deps(),
                                final(self).graph_view(),
                                old(self).store_view(),
                            ))),
                        DependencyError::CircularDependency(p) => {
                            let dv = p.deep_view();
                            &&& dv.len() >= 3
                            &&& dv[0] == name@
                            &&& dv[dv.len() - 2] == name@
                            &&& final(self).graph_view().is_path(dv.subrange(1, dv.len() - 1))
                            &&& (old(self).store_view().lookup(name@) matches Some(
                                StoreRecord::Record(_),
                            ))
                        },
                        DependencyError::DependencyNotFound(_, _) => false,
                    }
                },
            },
    {
        let mut visiting: Vec<String> = Vec::new();
        proof {
            assert(visiting.deep_view() =~= Seq::<Seq<char>>::empty());
        }
        let r = self.load_profile_recursive(name, &mut visiting);
        proof {
            assert(!Seq::<Seq<char>>::empty().contains(name@));
            assert forall|x: Seq<char>| !Seq::<Seq<char>>::empty().contains(x) by {}
            if r is Ok {
                if old(self).profiles_view().contains_name(name@) {
                    assert(self.profiles_view().lookup(name@) == old(self).profiles_view().lookup(
                        name@,
                    ));
                }
            }
            if closure_readable(old(self).store_view(), name@) && closure_acyclic(
                old(self).store_view(),
                name@,
            ) && graph_within_store(old(self).graph_view(), old(self).store_view()) {
                assert(self.profiles_view().contains_name(name@));
                assert forall|q: Seq<Seq<char>>|
                    store_path(old(self).store_view(), q) && q.first() == name@ implies
                    self.profiles_view().contains_name(#[trigger] q.last()) by {
                    assert(store_path(self.store_view(), q));
                    assert(closure_readable(self.store_view(), name@));
                    assert(closure_acyclic(self.store_view(), name@));
                }
            }
            if (forall|x: Seq<char>, y: Seq<char>|
                #[trigger] old(self).committed_declares(x, y) ==> old(self).profiles_view().contains_name(y)) && r is Ok {
                // the loaded set stays closed under declared dependencies
                assert forall|x: Seq<char>, y: Seq<char>|
                    #[trigger] self.committed_declares(x, y) implies self.profiles_view().contains_name(y) by {
                    assert(!Seq::<Seq<char>>::empty().contains(y));
                }
                // a closed, consistent loaded set whose edges are all in an
                // acyclic graph admits no reachable declared cycle
                if old(self).graph_view().acyclic() {
                    if !closure_acyclic(old(self).store_view(), name@) {
                        let st = old(self).store_view();
                        assert(self.store_view() == st);
                        let cq = choose|cq: Seq<Seq<char>>|
                            store_path(st, cq) && cq.len() >= 2 && cq.first() == cq.last()
                                && store_reaches(st, name@, cq.first());
                        let rq = choose|rq: Seq<Seq<char>>|
                            store_path(st, rq) && rq.first() == name@ && rq.last() == cq.first();
                        let qall = rq + cq.drop_first();
                        assert forall|t: int| 0 <= t < qall.len() - 1 implies store_declares(
                            st,
                            #[trigger] qall[t],
                            qall[t + 1],
                        ) by {
                            if t < rq.len() - 1 {
                                assert(qall[t] == rq[t] && qall[t + 1] == rq[t + 1]);
                            } else if t == rq.len() - 1 {
                                assert(qall[t] == rq.last());
                                assert(qall[t + 1] == cq[1]);
                                assert(store_declares(st, cq[0], cq[1]));
                            } else {
                                assert(qall[t] == cq[t - rq.len() + 1]);
                                assert(qall[t + 1] == cq[t - rq.len() + 2]);
                            }
                        }
                        assert(store_path(st, qall));
                        assert(qall.first() == name@);
                        assert(store_path(self.store_view(), qall));
                        lemma_closed_walk_committed(*self, qall);
                        assert forall|k: int|
                            0 <= k < cq.len() implies self.profiles_view().contains_name(
                            #[trigger] cq[k]) by {
                            if k == 0 {
                                assert(qall[rq.len() - 1] == cq[0]);
                            } else {
                                assert(qall[rq.len() - 1 + k] == cq[k]);
                            }
                        }
                        assert forall|k: int| 0 <= k < cq.len() - 1 implies self.graph_view().dep(
                            #[trigger] cq[k],
                            cq[k + 1],
                        ) by {
                            assert(store_declares(st, cq[k], cq[k + 1]));
                            assert(self.committed_declares(cq[k], cq[k + 1])) by {
                                assert(self.backed_by_store(cq[k]));
                            }
                        }
                        assert forall|k: int| 0 <= k < cq.len() implies self.graph_view()
                            .has_node(#[trigger] cq[k]) by {
                            assert(self.profiles_view().contains_name(cq[k]));
                        }
                        assert(self.graph_view().is_cycle(cq));
                        assert(self.graph_view().acyclic());
                        assert(false);
                    }
                }
            }
        }
        r
    }

    /// Loads every profile the store lists; stops at the first failure.
    /// With every stored profile already loaded, a second call changes
    /// nothing.
    pub fn load_all_profiles(&mut self) -> (r: Result<(), DependencyError>)
        requires
            old(self).wf(),
            old(self).store_consistent(),
            old(self).loaded_registered(),
            old(self).clean_closures_committed(),
            old(self).committed_edges(),
        ensures
            final(self).wf(),
            final(self).store_consistent(),
            final(self).loaded_registered(),
            final(self).clean_closures_committed(),
            final(self).committed_edges(),
            final(self).store_view() == old(self).store_view(),
            forall|nm: Seq<char>|
                #[trigger] old(self).profiles_view().contains_name(nm) ==> final(self).profiles_view().lookup(nm) == old(self).profiles_view().lookup(nm),
            forall|nm: Seq<char>|
                old(self).graph_view().has_node(nm) ==> final(self).graph_view().has_node(nm),
            forall|x: Seq<char>, y: Seq<char>|
                final(self).graph_view().dep(x, y) ==> old(self).graph_view().dep(x, y)
                    || store_declares(old(self).store_view(), x, y),
            old(self).graph_view().acyclic() ==> final(self).graph_view().acyclic(),
            r is Ok ==> forall|k: int|
                0 <= k < old(self).store_view().names_view().len() ==> final(self).profiles_view().contains_name(
                    #[trigger] old(self).store_view().names_view()[k],
                ),
            (forall|k: int|
                0 <= k < old(self).store_view().names_view().len() ==> old(self).profiles_view().contains_name(#[trigger] old(self).store_view().names_view()[k]))
                ==> *final(self) == *old(self) && r is Ok,
            (forall|k: int|
                0 <= k < old(self).store_view().names_view().len() ==> closure_readable(
                    old(self).store_view(),
                    #[trigger] old(self).store_view().names_view()[k],
                ) && closure_acyclic(
                    old(self).store_view(),
                    old(self).store_view().names_view()[k],
                )) && graph_within_store(old(self).graph_view(), old(self).store_view())
                ==> r is Ok,
    {
        let names = self.store.list_profile_names();
        let n = names.len();
        let ghost all_loaded = forall|k: int|
            0 <= k < old(self).store_view().names_view().len() ==> old(self).profiles_view().contains_name(#[trigger] old(self).store_view().names_view()[k]);
        let ghost all_clean = (forall|k: int|
            0 <= k < old(self).store_view().names_view().len() ==> closure_readable(
                old(self).store_view(),
                #[trigger] old(self).store_view().names_view()[k],
            ) && closure_acyclic(
                old(self).store_view(),
                old(self).store_view().names_view()[k],
            )) && graph_within_store(old(self).graph_view(), old(self).store_view());
        for i in 0..n
            invariant
                n == names@.len(),
                names.deep_view() =~= old(self).store_view().names_view(),
                all_loaded == (forall|k: int|
                    0 <= k < old(self).store_view().names_view().len() ==> old(self).profiles_view().contains_name(
                        #[trigger] old(self).store_view().names_view()[k],
                    )),
                all_clean == ((forall|k: int|
                    0 <= k < old(self).store_view().names_view().len() ==> closure_readable(
                        old(self).store_view(),
                        #[trigger] old(self).store_view().names_view()[k],
                    ) && closure_acyclic(
                        old(self).store_view(),
                        old(self).store_view().names_view()[k],
                    )) && graph_within_store(old(self).graph_view(), old(self).store_view())),
                self.wf(),
                self.store_consistent(),
                self.loaded_registered(),
                self.clean_closures_committed(),
                self.committed_edges(),
                self.store_view() == old(self).store_view(),
                forall|nm: Seq<char>|
                    #[trigger] old(self).profiles_view().contains_name(nm) ==> self.profiles_view().lookup(nm) == old(self).profiles_view().lookup(nm),
                forall|nm: Seq<char>|
                    old(self).graph_view().has_node(nm) ==> self.graph_view().has_node(nm),
                forall|x: Seq<char>, y: Seq<char>|
                    self.graph_view().dep(x, y) ==> old(self).graph_view().dep(x, y)
                        || store_declares(old(self).store_view(), x, y),
                old(self).graph_view().acyclic() ==> self.graph_view().acyclic(),
                all_loaded ==> *self == *old(self),
                forall|k: int|
                    0 <= k < i ==> self.profiles_view().contains_name(
                        #[trigger] names.deep_view()[k],
                    ),
        {
            let ghost mpre = *self;
            let r = self.load_profile(names[i].as_str());
            match r {
                Ok(()) => {
                    proof {
                        assert forall|k: int|
                            0 <= k < i + 1 implies self.profiles_view().contains_name(
                            #[trigger] names.deep_view()[k],
                        ) by {
                            if k < i {
                                assert(mpre.profiles_view().contains_name(names.deep_view()[k]));
                            } else {
                                assert(names.deep_view()[k] == names@[i as int]@);
                            }
                        }
                        assert forall|nm: Seq<char>|
                            #[trigger] old(self).profiles_view().contains_name(nm) implies
                            self.profiles_view().lookup(nm) == old(self).profiles_view().lookup(
                            nm,
                        ) by {
                            assert(mpre.profiles_view().contains_name(nm));
                        }
                        assert forall|x: Seq<char>, y: Seq<char>|
                            self.graph_view().dep(x, y) implies old(self).graph_view().dep(x, y)
                            || store_declares(old(self).store_view(), x, y) by {
                            if !mpre.graph_view().dep(x, y) {
                                assert(store_declares(mpre.store_view(), x, y));
                            }
                        }
                        if all_loaded {
                            assert(mpre.profiles_view().contains_name(names@[i as int]@)) by {
                                assert(names.deep_view()[i as int] == names@[i as int]@);
                            }
                            assert(*self == mpre);
                        }
                    }
                },
                Err(e) => {
                    proof {
                        assert forall|nm: Seq<char>|
                            #[trigger] old(self).profiles_view().contains_name(nm) implies
                            self.profiles_view().lookup(nm) == old(self).profiles_view().lookup(
                            nm,
                        ) by {
                            assert(mpre.profiles_view().contains_name(nm));
                        }
                        assert forall|x: Seq<char>, y: Seq<char>|
                            self.graph_view().dep(x, y) implies old(self).graph_view().dep(x, y)
                            || store_declares(old(self).store_view(), x, y) by {
                            if !mpre.graph_view().dep(x, y) {
                                assert(store_declares(mpre.store_view(), x, y));
                            }
                        }
                        if all_loaded {
                            assert(mpre.profiles_view().contains_name(names@[i as int]@)) by {
                                assert(names.deep_view()[i as int] == names@[i as int]@);
                            }
                            assert(r is Ok);
                        }
                        if all_clean {
                            assert(closure_readable(
                                old(self).store_view(),
                                names@[i as int]@,
                            ) && closure_acyclic(old(self).store_view(), names@[i as int]@)) by {
                                assert(names.deep_view()[i as int] == names@[i as int]@);
                            }
                            assert(graph_within_store(
                                mpre.graph_view(),
                                mpre.store_view(),
                            )) by {
                                assert forall|x: Seq<char>, y: Seq<char>|
                                    #[trigger] mpre.graph_view().dep(x, y) implies
                                    store_declares(mpre.store_view(), x, y) by {
                                    assert(old(self).graph_view().dep(x, y) || store_declares(
                                        old(self).store_view(),
                                        x,
                                        y,
                                    ));
                                }
                            }
                            assert(r is Ok);
                        }
                    }
                    return Err(e);
                },
            }
        }
        Ok(())
    }
    /// The profile loaded under `name`, if any.
    pub fn get_profile(&self, name: &str) -> (r: Option<&Profile>)
        requires
            self.wf(),
        ensures
            match r {
                Some(p) => self.profiles_view().lookup(name@) == Some(*p),
                None => self.profiles_view().lookup(name@) is None,
            },
    {
        self.profiles.read_profile(name)
    }

    /// Reads a loaded profile; a separate name, kept for callers that
    /// think of the set as a cache.
    pub fn read_profile(&self, name: &str) -> (r: Option<&Profile>)
        requires
            self.wf(),
        ensures
            match r {
                Some(p) => self.profiles_view().lookup(name@) == Some(*p),
                None => self.profiles_view().lookup(name@) is None,
            },
    {
        self.profiles.read_profile(name)
    }

    pub fn has_profile(&self, name: &str) -> (r: bool)
        ensures
            r == self.profiles_view().contains_name(name@),
    {
        self.profiles.has_profile(name)
    }

    /// Stores a working copy directly, as an editor does.
    pub fn add_profile(&mut self, name: &str, profile: Profile)
        requires
            old(self).wf(),
        ensures
            final(self).wf(),
            final(self).graph_view() == old(self).graph_view(),
            final(self).store_view() == old(self).store_view(),
            forall|nm: Seq<char>|
                final(self).profiles_view().lookup(nm) == if nm == name@ {
                    Some(profile)
                } else {
                    old(self).profiles_view().lookup(nm)
                },
    {
        self.profiles.add_profile(name, profile);
    }

    /// Drops a working copy, returning it.
    pub fn remove_profile(&mut self, name: &str) -> (r: Option<Profile>)
        requires
            old(self).wf(),
        ensures
            final(self).wf(),
            final(self).graph_view() == old(self).graph_view(),
            final(self).store_view() == old(self).store_view(),
            r == old(self).profiles_view().lookup(name@),
            forall|nm: Seq<char>|
                final(self).profiles_view().lookup(nm) == if nm == name@ {
                    None::<Profile>
                } else {
                    old(self).profiles_view().lookup(nm)
                },
    {
        self.profiles.remove_profile(name)
    }

    /// Moves a working copy to a new name, returning the moved profile.
    pub fn rename_profile_in_memory(&mut self, old_name: &str, new_name: &str) -> (r: Option<
        Profile,
    >)
        requires
            old(self).wf(),
        ensures
            final(self).wf(),
            final(self).graph_view() == old(self).graph_view(),
            final(self).store_view() == old(self).store_view(),
            forall|nm: Seq<char>|
                nm != old_name@ && nm != new_name@ ==> final(self).profiles_view().lookup(nm)
                    == old(self).profiles_view().lookup(nm),
            match r {
                Some(p) => {
                    &&& old(self).profiles_view().lookup(old_name@) == Some(p)
                    &&& (final(self).profiles_view().lookup(new_name@) matches Some(q) && q.vars()
                        == p.vars() && q.deps() == p.deps())
                    &&& (old_name@ != new_name@ ==> final(self).profiles_view().lookup(
                        old_name@,
                    ) is None)
                },
                None => {
                    &&& old(self).profiles_view().lookup(old_name@) is None
                    &&& *final(self) == *old(self)
                },
            },
    {
        let ghost m0 = *self;
        match self.profiles.remove_profile(old_name) {
            Some(p) => {
                let q = p.duplicate();
                self.profiles.add_profile(new_name, q);
                proof {
                    assert(self.profiles_view().lookup(new_name@) == Some(q));
                    assert(q.vars() == p.vars() && q.deps() == p.deps());
                    if old_name@ != new_name@ {
                        assert(self.profiles_view().lookup(old_name@) is None);
                    }
                }
                Some(p)
            },
            None => {
                proof {
                    assert(self.profiles == m0.profiles);
                    assert(*self == m0);
                }
                None
            },
        }
    }

    /// Swaps one declared dependency of a loaded profile for another.
    pub fn update_profile_dependencies(&mut self, profile_name: &str, old_dep: &str, new_dep: &str)
        requires
            old(self).wf(),
        ensures
            final(self).wf(),
            final(self).graph_view() == old(self).graph_view(),
            final(self).store_view() == old(self).store_view(),
            forall|nm: Seq<char>|
                nm != profile_name@ ==> final(self).profiles_view().lookup(nm) == old(
                    self,
                ).profiles_view().lookup(nm),
            match old(self).profiles_view().lookup(profile_name@) {
                Some(p) => final(self).profiles_view().lookup(profile_name@) matches Some(q)
                    && q.vars() == p.vars() && q.deps() =~= p.deps().filter(
                    |d: Seq<char>| d != old_dep@,
                ).push(new_dep@),
                None => *final(self) == *old(self),
            },
    {
        let ghost m0 = *self;
        match self.profiles.remove_profile(profile_name) {
            Some(p) => {
                let ghost p0 = p;
                let mut p = p;
                p.remove_profile(old_dep);
                p.add_profile(new_dep);
                proof {
                    assert(p.vars() == p0.vars());
                    assert(p.deps() =~= p0.deps().filter(|d: Seq<char>| d != old_dep@).push(
                        new_dep@,
                    ));
                }
                self.profiles.add_profile(profile_name, p);
                proof {
                    assert(self.profiles_view().lookup(profile_name@) == Some(p));
                }
            },
            None => {
                proof {
                    assert(self.profiles == m0.profiles);
                    assert(*self == m0);
                }
            },
        }
    }

    /// The names of the loaded profiles.
    pub fn list_profile_names(&self) -> (r: ProfileNames)
        ensures
            r.0.deep_view() =~= self.profiles_view().names_view(),
    {
        ProfileNames(self.profiles.profile_names())
    }

    /// The names the store holds records for.
    pub fn scan_profile_names(&self) -> (r: ProfileNames)
        ensures
            r.0.deep_view() =~= self.store_view().names_view(),
    {
        ProfileNames(self.store.list_profile_names())
    }

    /// Computes the activation order for a profile; see the graph.
    pub fn resolve_dependencies(&self, profile_name: &str) -> (r: Result<
        Vec<String>,
        DependencyError,
    >)
        requires
            self.wf(),
        ensures
            match r {
                Ok(v) => {
                    let s = v.deep_view();
                    &&& self.graph_view().has_node(profile_name@)
                    &&& s.len() >= 1
                    &&& s.last() == profile_name@
                    &&& s.no_duplicates()
                    &&& (forall|x: Seq<char>|
                        s.contains(x) <==> self.graph_view().reaches(profile_name@, x))
                    &&& (forall|a: int, b: int|
                        0 <= a < s.len() && 0 <= b < s.len() && self.graph_view().dep(
                            #[trigger] s[a],
                            #[trigger] s[b],
                        ) ==> b < a)
                    &&& !(exists|p: Seq<Seq<char>>|
                        self.graph_view().is_cycle(p) && self.graph_view().reaches(
                            profile_name@,
                            p.first(),
                        ))
                },
                Err(DependencyError::ProfileNotFound(n)) => {
                    &&& n@ == profile_name@
                    &&& !self.graph_view().has_node(profile_name@)
                },
                Err(DependencyError::CircularDependency(p)) => {
                    &&& self.graph_view().is_cycle(p.deep_view())
                    &&& self.graph_view().reaches(profile_name@, p.deep_view().first())
                },
                _ => false,
            },
    {
        self.graph.resolve_dependencies(profile_name)
    }

    /// Finds a dependency walk between two profiles; see the graph.
    pub fn find_path(&self, start: &str, end: &str) -> (r: Option<Vec<String>>)
        requires
            self.wf(),
        ensures
            match r {
                Some(v) => {
                    let dv = v.deep_view();
                    &&& start@ != end@
                    &&& self.graph_view().is_path(dv)
                    &&& dv.len() >= 2
                    &&& dv.first() == start@
                    &&& dv.last() == end@
                    &&& dv.no_duplicates()
                },
                None => start@ == end@ || !self.graph_view().has_node(start@)
                    || !self.graph_view().has_node(end@) || !self.graph_view().reaches_plus(
                    start@,
                    end@,
                ),
            },
    {
        self.graph.find_path(start, end)
    }

    /// Lists the profiles that declare `profile_name` as a dependency.
    pub fn get_parents(&self, profile_name: &str) -> (r: Option<Vec<String>>)
        requires
            self.wf(),
        ensures
            match r {
                Some(v) => {
                    &&& self.graph_view().has_node(profile_name@)
                    &&& v.deep_view().no_duplicates()
                    &&& (forall|x: Seq<char>|
                        v.deep_view().contains(x) <==> self.graph_view().dep(x, profile_name@))
                },
                None => !self.graph_view().has_node(profile_name@),
            },
    {
        self.graph.get_parents(profile_name)
    }

    /// Throws the graph away and rebuilds it from the loaded profiles.
    pub fn rebuild_graph(&mut self) -> (r: Result<(), DependencyError>)
        requires
            old(self).wf(),
        ensures
            final(self).wf(),
            final(self).store_view() == old(self).store_view(),
            final(self).profiles_view() == old(self).profiles_view(),
            match r {
                Ok(()) => {
                    &&& final(self).graph_view().acyclic()
                    &&& (forall|nm: Seq<char>|
                        final(self).graph_view().has_node(nm) == old(self).profiles_view().contains_name(nm))
                    &&& (forall|x: Seq<char>, y: Seq<char>|
                        final(self).graph_view().dep(x, y) == crate::graph::declared_dep(
                            old(self).profiles_view(),
                            x,
                            y,
                        ))
                    &&& (forall|x: Seq<char>, y: Seq<char>|
                        crate::graph::declares(old(self).profiles_view(), x, y) ==> old(
                            self,
                        ).profiles_view().contains_name(y))
                },
                Err(DependencyError::DependencyNotFound(a, b)) => {
                    &&& crate::graph::declares(old(self).profiles_view(), a@, b@)
                    &&& !old(self).profiles_view().contains_name(b@)
                    &&& crate::graph::first_missing_ref(old(self).profiles_view(), a@, b@)
                    &&& final(self).graph_view() == old(self).graph_view()
                },
                Err(DependencyError::CircularDependency(p)) => {
                    let dv = p.deep_view();
                    &&& dv.len() >= 3
                    &&& dv[0] == dv[dv.len() - 2]
                    &&& dv[1] == dv[dv.len() - 1]
                    &&& (forall|k: int|
                        0 <= k < dv.len() - 1 ==> crate::graph::declared_dep(
                            old(self).profiles_view(),
                            #[trigger] dv[k],
                            dv[k + 1],
                        ))
                    &&& final(self).graph_view() == old(self).graph_view()
                },
                _ => false,
            },
    {
        match ProfileGraph::build(&self.profiles) {
            Ok(g) => {
                self.graph = g;
                Ok(())
            },
            Err(e) => Err(e),
        }
    }

    /// Adds one dependency edge; see the graph for the full story.
    pub fn add_dependency_edge(&mut self, parent: &str, child: &str) -> (r: Result<
        (),
        DependencyError,
    >)
        requires
            old(self).wf(),
        ensures
            final(self).wf(),
            final(self).store_view() == old(self).store_view(),
            final(self).profiles_view() == old(self).profiles_view(),
            match r {
                Ok(()) => {
                    &&& old(self).graph_view().has_node(parent@)
                    &&& old(self).graph_view().has_node(child@)
                    &&& !old(self).graph_view().reaches(child@, parent@)
                    &&& (forall|x: Seq<char>, y: Seq<char>|
                        final(self).graph_view().dep(x, y) == (old(self).graph_view().dep(x, y)
                            || (x == parent@ && y == child@)))
                    &&& (old(self).graph_view().acyclic() ==> final(self).graph_view().acyclic())
                },
                Err(DependencyError::ProfileNotFound(n)) => {
                    &&& n@ == parent@
                    &&& !old(self).graph_view().has_node(parent@)
                    &&& final(self).graph_view() == old(self).graph_view()
                },
                Err(DependencyError::DependencyNotFound(a, b)) => {
                    &&& a@ == parent@
                    &&& b@ == child@
                    &&& old(self).graph_view().has_node(parent@)
                    &&& !old(self).graph_view().has_node(child@)
                    &&& final(self).graph_view() == old(self).graph_view()
                },
                Err(DependencyError::CircularDependency(p)) => {
                    let dv = p.deep_view();
                    &&& old(self).graph_view().has_node(parent@)
                    &&& old(self).graph_view().has_node(child@)
                    &&& old(self).graph_view().reaches(child@, parent@)
                    &&& final(self).graph_view() == old(self).graph_view()
                    &&& dv.len() >= 3
                    &&& dv[0] == parent@
                    &&& dv[1] == child@
                    &&& dv[dv.len() - 2] == parent@
                    &&& dv.last() == child@
                    &&& old(self).graph_view().is_path(dv.subrange(1, dv.len() - 1))
                },
                _ => false,
            },
    {
        self.graph.add_dependency(parent, child)
    }

    /// Removes one dependency edge; a missing edge is a no-op.
    pub fn remove_dependency_edge(&mut self, parent: &str, child: &str) -> (r: Result<
        (),
        DependencyError,
    >)
        requires
            old(self).wf(),
        ensures
            final(self).wf(),
            final(self).store_view() == old(self).store_view(),
            final(self).profiles_view() == old(self).profiles_view(),
            match r {
                Ok(()) => {
                    &&& old(self).graph_view().has_node(parent@)
                    &&& old(self).graph_view().has_node(child@)
                    &&& (forall|x: Seq<char>, y: Seq<char>|
                        final(self).graph_view().dep(x, y) == (old(self).graph_view().dep(x, y)
                            && !(x == parent@ && y == child@)))
                    &&& (!old(self).graph_view().dep(parent@, child@) ==> final(self).graph_view()
                        == old(self).graph_view())
                    &&& (old(self).graph_view().acyclic() ==> final(self).graph_view().acyclic())
                },
                Err(DependencyError::ProfileNotFound(n)) => {
                    &&& n@ == parent@
                    &&& !old(self).graph_view().has_node(parent@)
                    &&& final(self).graph_view() == old(self).graph_view()
                },
                Err(DependencyError::DependencyNotFound(a, b)) => {
                    &&& a@ == parent@
                    &&& b@ == child@
                    &&& old(self).graph_view().has_node(parent@)
                    &&& !old(self).graph_view().has_node(child@)
                    &&& final(self).graph_view() == old(self).graph_view()
                },
                _ => false,
            },
    {
        self.graph.remove_dependency(parent, child)
    }

    /// Registers a graph node.
    pub fn add_profile_node(&mut self, name: &str)
        requires
            old(self).wf(),
        ensures
            final(self).wf(),
            final(self).store_view() == old(self).store_view(),
            final(self).profiles_view() == old(self).profiles_view(),
            forall|nm: Seq<char>|
                final(self).graph_view().has_node(nm) == (old(self).graph_view().has_node(nm)
                    || nm == name@),
            forall|x: Seq<char>, y: Seq<char>|
                final(self).graph_view().dep(x, y) == old(self).graph_view().dep(x, y),
    {
        self.graph.add_node(name.to_owned());
    }

    /// Unregisters a graph node with its incident edges.
    pub fn remove_profile_node(&mut self, name: &str) -> (r: Result<(), DependencyError>)
        requires
            old(self).wf(),
        ensures
            final(self).wf(),
            final(self).store_view() == old(self).store_view(),
            final(self).profiles_view() == old(self).profiles_view(),
            match r {
                Ok(()) => {
                    &&& old(self).graph_view().has_node(name@)
                    &&& (forall|nm: Seq<char>|
                        final(self).graph_view().has_node(nm) == (old(self).graph_view().has_node(
                            nm,
                        ) && nm != name@))
                    &&& (forall|x: Seq<char>, y: Seq<char>|
                        final(self).graph_view().dep(x, y) == (old(self).graph_view().dep(x, y)
                            && x != name@ && y != name@))
                    &&& (old(self).graph_view().acyclic() ==> final(self).graph_view().acyclic())
                },
                Err(DependencyError::ProfileNotFound(n)) => {
                    &&& n@ == name@
                    &&& !old(self).graph_view().has_node(name@)
                    &&& final(self).graph_view() == old(self).graph_view()
                },
                _ => false,
            },
    {
        self.graph.remove_node(name)
    }

    /// Relabels a graph node in place.
    pub fn rename_profile_node(&mut self, old_name: &str, new_name: &str) -> (r: Result<
        (),
        DependencyError,
    >)
        requires
            old(self).wf(),
            old(self).graph_view().has_node(old_name@) && new_name@ != old_name@ ==> !old(self).graph_view().has_node(new_name@),
        ensures
            final(self).wf(),
            final(self).store_view() == old(self).store_view(),
            final(self).profiles_view() == old(self).profiles_view(),
            r is Err ==> final(self).graph_view() == old(self).graph_view(),
            r is Ok ==> {
                &&& (forall|nm: Seq<char>|
                    final(self).graph_view().has_node(nm) == (nm == new_name@ || (old(self).graph_view().has_node(nm) && nm != old_name@)))
                &&& (forall|x: Seq<char>|
                    x != old_name@ && x != new_name@ ==> (final(self).graph_view().dep(
                        x,
                        new_name@,
                    ) == old(self).graph_view().dep(x, old_name@)))
            },
    {
        self.graph.rename_node(old_name, new_name.to_owned())
    }
}

/// The shape of an error recorded while loading the dependencies of
/// `name`: a wrapped failure of one dependency branch, or an edge
/// insertion rejected over a real dependency walk back to `name`.
pub open spec fn dep_error_shape(
    e: DependencyError,
    name: Seq<char>,
    deps: Seq<Seq<char>>,
    g: ProfileGraph,
    st: ProfileStore,
) -> bool {
    match e {
        DependencyError::DependencyChain { profile, cause } => profile@ == name,
        DependencyError::CircularDependency(p) => {
            let dv = p.deep_view();
            &&& dv.len() >= 3
            &&& dv[0] == name
            &&& dv[dv.len() - 2] == name
            &&& g.is_path(dv.subrange(1, dv.len() - 1))
        },
        _ => false,
    }
}

/// A recorded error keeps its shape as the graph grows.
proof fn lemma_dep_error_shape_monotone(
    e: DependencyError,
    name: Seq<char>,
    deps: Seq<Seq<char>>,
    st: ProfileStore,
    g1: ProfileGraph,
    g2: ProfileGraph,
)
    requires
        dep_error_shape(e, name, deps, g1, st),
        forall|nm: Seq<char>| g1.has_node(nm) ==> g2.has_node(nm),
        forall|x: Seq<char>, y: Seq<char>| g1.dep(x, y) ==> g2.dep(x, y),
    ensures
        dep_error_shape(e, name, deps, g2, st),
{
    match e {
        DependencyError::CircularDependency(p) => {
            let dv = p.deep_view();
            let t = dv.subrange(1, dv.len() - 1);
            assert forall|k: int| 0 <= k < t.len() implies g2.has_node(#[trigger] t[k]) by {
                assert(g1.has_node(t[k]));
            }
            assert forall|k: int| 0 <= k < t.len() - 1 implies g2.dep(
                #[trigger] t[k],
                t[k + 1],
            ) by {
                assert(g1.dep(t[k], t[k + 1]));
            }
        },
        _ => {},
    }
}

} // verus!
