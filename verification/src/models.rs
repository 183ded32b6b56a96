//! The profile record: environment variables plus declared dependencies.

use vstd::prelude::*;

verus! {

/// Compares two string slices by contents.
pub fn str_eq(a: &str, b: &str) -> (r: bool)
    ensures
        r == (a@ == b@),
{
    let sa: String = a.to_owned();
    let sb: String = b.to_owned();
    sa == sb
}

/// The characters of a string slice, in order.
pub fn chars_of(s: &str) -> (r: Vec<char>)
    ensures
        r@ == s@,
{
    broadcast use vstd::string::axiom_spec_iter;

    let mut out: Vec<char> = Vec::new();
    for c in it: s.chars()
        invariant
            out@ =~= it.seq().take(it.index() as int),
            it.seq() == s@,
    {
        out.push(c);
    }
    proof {
        assert(out@ =~= s@);
    }
    out
}

/// Looks a key up in an association list, scanning from the front.
/// Meaningful on lists whose keys are distinct.
pub open spec fn assoc_get<V>(s: Seq<(Seq<char>, V)>, k: Seq<char>) -> Option<V>
    decreases s.len(),
{
    if s.len() == 0 {
        None
    } else if s[0].0 == k {
        Some(s[0].1)
    } else {
        assoc_get(s.drop_first(), k)
    }
}

/// The keys of an association list, in order.
pub open spec fn assoc_keys<V>(s: Seq<(Seq<char>, V)>) -> Seq<Seq<char>> {
    s.map_values(|p: (Seq<char>, V)| p.0)
}

/// On a list whose keys are distinct, updating entry `i` in place changes
/// the lookup result for that entry's key alone.
pub proof fn lemma_assoc_get_update<V>(s: Seq<(Seq<char>, V)>, i: int, v: V)
    requires
        0 <= i < s.len(),
        assoc_keys(s).no_duplicates(),
    ensures
        forall|k: Seq<char>|
            assoc_get(s.update(i, (s[i].0, v)), k) == if k == s[i].0 {
                Some(v)
            } else {
                assoc_get(s, k)
            },
    decreases s.len(),
{
    let s2 = s.update(i, (s[i].0, v));
    if i == 0 {
        assert forall|k: Seq<char>|
            assoc_get(s2, k) == if k == s[0].0 {
                Some(v)
            } else {
                assoc_get(s, k)
            } by {
            reveal_with_fuel(assoc_get, 2);
            assert(s2.drop_first() =~= s.drop_first());
        }
    } else {
        let t = s.drop_first();
        assert(assoc_keys(t) =~= assoc_keys(s).drop_first());
        lemma_assoc_get_update(t, i - 1, v);
        assert forall|k: Seq<char>|
            assoc_get(s2, k) == if k == s[i].0 {
                Some(v)
            } else {
                assoc_get(s, k)
            } by {
            reveal_with_fuel(assoc_get, 2);
            assert(s2.drop_first() =~= t.update(i - 1, (t[i - 1].0, v)));
            assert(s2[0] == s[0]);
            assert(t[i - 1] == s[i]);
            assert(assoc_get(t.update(i - 1, (t[i - 1].0, v)), k) == if k == t[i - 1].0 {
                Some(v)
            } else {
                assoc_get(t, k)
            });
            assert(assoc_get(s2, k) == if s2[0].0 == k {
                Some(s2[0].1)
            } else {
                assoc_get(s2.drop_first(), k)
            });
            assert(assoc_get(s, k) == if s[0].0 == k {
                Some(s[0].1)
            } else {
                assoc_get(t, k)
            });
            if k == s[i].0 {
                assert(assoc_keys(s)[0] == s[0].0);
                assert(assoc_keys(s)[i] == s[i].0);
                assert(s[0].0 != s[i].0);
            }
        }
    }
}

/// Appending an entry leaves lookups of present keys unchanged and serves
/// absent keys from the new entry.
pub proof fn lemma_assoc_get_push<V>(s: Seq<(Seq<char>, V)>, p: (Seq<char>, V))
    ensures
        forall|k: Seq<char>|
            assoc_get(s.push(p), k) == if assoc_get(s, k) is Some {
                assoc_get(s, k)
            } else if k == p.0 {
                Some(p.1)
            } else {
                None::<V>
            },
    decreases s.len(),
{
    if s.len() == 0 {
        assert forall|k: Seq<char>|
            assoc_get(s.push(p), k) == if assoc_get(s, k) is Some {
                assoc_get(s, k)
            } else if k == p.0 {
                Some(p.1)
            } else {
                None::<V>
            } by {
            reveal_with_fuel(assoc_get, 2);
            assert(s.push(p)[0] == p);
            assert(s.push(p).drop_first() =~= Seq::<(Seq<char>, V)>::empty());
        }
    } else {
        lemma_assoc_get_push(s.drop_first(), p);
        assert forall|k: Seq<char>|
            assoc_get(s.push(p), k) == if assoc_get(s, k) is Some {
                assoc_get(s, k)
            } else if k == p.0 {
                Some(p.1)
            } else {
                None::<V>
            } by {
            reveal_with_fuel(assoc_get, 2);
            assert(s.push(p).drop_first() =~= s.drop_first().push(p));
            assert(s.push(p)[0] == s[0]);
            let q = s.drop_first();
            assert(assoc_get(q.push(p), k) == if assoc_get(q, k) is Some {
                assoc_get(q, k)
            } else if k == p.0 {
                Some(p.1)
            } else {
                None::<V>
            });
            assert(assoc_get(s.push(p), k) == if s[0].0 == k {
                Some(s[0].1)
            } else {
                assoc_get(q.push(p), k)
            });
            assert(assoc_get(s, k) == if s[0].0 == k {
                Some(s[0].1)
            } else {
                assoc_get(q, k)
            });
        }
    }
}

/// A key misses exactly when no entry carries it.
pub proof fn lemma_assoc_get_none<V>(s: Seq<(Seq<char>, V)>, k: Seq<char>)
    ensures
        (assoc_get(s, k) is None) <==> (forall|j: int| 0 <= j < s.len() ==> s[j].0 != k),
    decreases s.len(),
{
    if s.len() > 0 {
        lemma_assoc_get_none(s.drop_first(), k);
        assert forall|j: int| 1 <= j < s.len() implies s.drop_first()[j - 1] == s[j] by {}
    }
}

/// On a list whose keys are distinct, removing entry `i` erases that key
/// alone.
pub proof fn lemma_assoc_get_remove<V>(s: Seq<(Seq<char>, V)>, i: int)
    requires
        0 <= i < s.len(),
        assoc_keys(s).no_duplicates(),
    ensures
        forall|k: Seq<char>|
            assoc_get(s.remove(i), k) == if k == s[i].0 {
                None::<V>
            } else {
                assoc_get(s, k)
            },
    decreases s.len(),
{
    let s2 = s.remove(i);
    if i == 0 {
        assert forall|k: Seq<char>|
            assoc_get(s2, k) == if k == s[0].0 {
                None::<V>
            } else {
                assoc_get(s, k)
            } by {
            assert(s2 =~= s.drop_first());
            if k == s[0].0 {
                lemma_assoc_get_none(s.drop_first(), k);
                assert forall|j: int| 0 <= j < s.drop_first().len() implies s.drop_first()[j].0
                    != k by {
                    assert(assoc_keys(s)[j + 1] == s[j + 1].0);
                    assert(assoc_keys(s)[0] == s[0].0);
                }
            }
        }
    } else {
        let t = s.drop_first();
        assert(assoc_keys(t) =~= assoc_keys(s).drop_first());
        lemma_assoc_get_remove(t, i - 1);
        assert forall|k: Seq<char>|
            assoc_get(s2, k) == if k == s[i].0 {
                None::<V>
            } else {
                assoc_get(s, k)
            } by {
            reveal_with_fuel(assoc_get, 2);
            assert(s2.drop_first() =~= t.remove(i - 1));
            assert(s2[0] == s[0]);
            assert(t[i - 1] == s[i]);
            assert(assoc_get(t.remove(i - 1), k) == if k == t[i - 1].0 {
                None::<V>
            } else {
                assoc_get(t, k)
            });
            assert(assoc_get(s2, k) == if s2[0].0 == k {
                Some(s2[0].1)
            } else {
                assoc_get(s2.drop_first(), k)
            });
            assert(assoc_get(s, k) == if s[0].0 == k {
                Some(s[0].1)
            } else {
                assoc_get(t, k)
            });
            if k == s[i].0 {
                assert(assoc_keys(s)[0] == s[0].0);
                assert(assoc_keys(s)[i] == s[i].0);
                assert(s[0].0 != s[i].0);
            }
        }
    }
}

/// A single profile: a mapping from variable names to values, and an ordered
/// list of profile names this profile depends on (duplicates tolerated).
#[derive(Debug)]
pub struct Profile {
    pub variables: Vec<(String, String)>,
    pub profiles: Vec<String>,
}

impl Profile {
    /// The variable mapping, as a sequence of key/value pairs.
    pub open spec fn vars(self) -> Seq<(Seq<char>, Seq<char>)> {
        self.variables.deep_view()
    }

    /// The declared dependencies, as a sequence of names.
    pub open spec fn deps(self) -> Seq<Seq<char>> {
        self.profiles.deep_view()
    }

    /// The variable mapping has at most one entry per key.
    pub open spec fn wf(self) -> bool {
        assoc_keys(self.vars()).no_duplicates()
    }

    pub fn new() -> (p: Profile)
        ensures
            p.vars() =~= Seq::<(Seq<char>, Seq<char>)>::empty(),
            p.deps() =~= Seq::<Seq<char>>::empty(),
            p.wf(),
    {
        Profile { variables: Vec::new(), profiles: Vec::new() }
    }

    pub fn clear(&mut self)
        ensures
            final(self).vars() =~= Seq::<(Seq<char>, Seq<char>)>::empty(),
            final(self).deps() =~= Seq::<Seq<char>>::empty(),
            final(self).wf(),
    {
        self.variables.clear();
        self.profiles.clear();
    }

    pub fn is_empty(&self) -> (r: bool)
        ensures
            r == (self.vars().len() == 0 && self.deps().len() == 0),
    {
        self.variables.len() == 0 && self.profiles.len() == 0
    }

    /// Appends a declared dependency; duplicates are tolerated here and
    /// deduplicated only when variables are collected.
    pub fn add_profile(&mut self, name: &str)
        ensures
            final(self).deps() =~= old(self).deps().push(name@),
            final(self).vars() == old(self).vars(),
            final(self).wf() == old(self).wf(),
    {
        self.profiles.push(name.to_owned());
        proof {
            assert(self.profiles.deep_view() =~= old(self).profiles.deep_view().push(name@));
        }
    }

    /// Makes an independent working copy with the same contents.
    pub fn duplicate(&self) -> (r: Profile)
        ensures
            r.vars() == self.vars(),
            r.deps() == self.deps(),
    {
        let mut variables: Vec<(String, String)> = Vec::new();
        let nv = self.variables.len();
        for i in 0..nv
            invariant
                nv == self.variables.len(),
                variables.deep_view().len() == i,
                forall|j: int| 0 <= j < i ==> variables.deep_view()[j] == self.vars()[j],
        {
            let entry = (self.variables[i].0.clone(), self.variables[i].1.clone());
            variables.push(entry);
            proof {
                assert forall|j: int| 0 <= j < i + 1 implies variables.deep_view()[j]
                    == self.vars()[j] by {
                    if j == i as int {
                        assert(variables@[j].0@ == self.variables@[j].0@);
                        assert(variables@[j].1@ == self.variables@[j].1@);
                        assert(self.vars()[j] == (self.variables@[j].0@, self.variables@[j].1@));
                    }
                }
            }
        }
        let mut profiles: Vec<String> = Vec::new();
        let np = self.profiles.len();
        for i in 0..np
            invariant
                np == self.profiles.len(),
                profiles.deep_view().len() == i,
                forall|j: int| 0 <= j < i ==> profiles.deep_view()[j] == self.deps()[j],
        {
            profiles.push(self.profiles[i].clone());
            proof {
                assert forall|j: int| 0 <= j < i + 1 implies profiles.deep_view()[j]
                    == self.deps()[j] by {
                    if j == i as int {
                        assert(profiles@[j]@ == self.profiles@[j]@);
                    }
                }
            }
        }
        let r = Profile { variables, profiles };
        proof {
            assert(r.vars() =~= self.vars());
            assert(r.deps() =~= self.deps());
        }
        r
    }

    /// Removes every occurrence of `name` from the declared dependencies.
    pub fn remove_profile(&mut self, name: &str)
        ensures
            final(self).deps() =~= old(self).deps().filter(|d: Seq<char>| d != name@),
            final(self).vars() == old(self).vars(),
            final(self).wf() == old(self).wf(),
    {
        let ghost dv = self.profiles.deep_view();
        let mut kept: Vec<String> = Vec::new();
        let n = self.profiles.len();
        for i in 0..n
            invariant
                n == self.profiles.len(),
                dv == self.profiles.deep_view(),
                kept.deep_view() =~= dv.take(i as int).filter(|d: Seq<char>| d != name@),
        {
            let ghost kept0 = kept.deep_view();
            let keep = !str_eq(self.profiles[i].as_str(), name);
            if keep {
                kept.push(self.profiles[i].clone());
            }
            proof {
                reveal(Seq::filter);
                assert(dv.take(i + 1).drop_last() =~= dv.take(i as int));
                assert(dv.take(i + 1).last() == dv[i as int]);
                assert(dv[i as int] == self.profiles@[i as int]@);
                assert(keep == (dv[i as int] != name@));
                if keep {
                    assert(kept.deep_view() =~= kept0.push(dv[i as int]));
                    assert(dv.take(i + 1).filter(|d: Seq<char>| d != name@) == dv.take(
                        i as int,
                    ).filter(|d: Seq<char>| d != name@).push(dv[i as int]));
                } else {
                    assert(dv.take(i + 1).filter(|d: Seq<char>| d != name@) == dv.take(
                        i as int,
                    ).filter(|d: Seq<char>| d != name@));
                }
            }
        }
        proof {
            assert(dv.take(n as int) =~= dv);
        }
        self.profiles = kept;
    }

    /// Finds the index of the entry holding `key`, if any.
    fn find_variable(&self, key: &str) -> (r: Option<usize>)
        ensures
            match r {
                Some(i) => i < self.vars().len() && self.vars()[i as int].0 == key@,
                None => forall|j: int| 0 <= j < self.vars().len() ==> self.vars()[j].0 != key@,
            },
    {
        let n = self.variables.len();
        for i in 0..n
            invariant
                n == self.variables.len(),
                forall|j: int| 0 <= j < i ==> self.vars()[j].0 != key@,
        {
            proof {
                let ghost entry = self.variables@[i as int];
                assert(self.vars()[i as int] == (entry.0@, entry.1@));
            }
            if str_eq(self.variables[i].0.as_str(), key) {
                return Some(i);
            }
        }
        None
    }

    /// Inserts or overwrites one variable.
    pub fn add_variable(&mut self, key: &str, value: &str)
        requires
            old(self).wf(),
        ensures
            final(self).wf(),
            final(self).deps() == old(self).deps(),
            forall|k: Seq<char>|
                assoc_get(final(self).vars(), k) == if k == key@ {
                    Some(value@)
                } else {
                    assoc_get(old(self).vars(), k)
                },
            assoc_keys(final(self).vars()) =~= if assoc_get(old(self).vars(), key@) is Some {
                assoc_keys(old(self).vars())
            } else {
                assoc_keys(old(self).vars()).push(key@)
            },
    {
        let ghost s = self.vars();
        match self.find_variable(key) {
            Some(i) => {
                self.variables.set(i, (key.to_owned(), value.to_owned()));
                proof {
                    assert(self.vars() =~= s.update(i as int, (s[i as int].0, value@)));
                    lemma_assoc_get_update(s, i as int, value@);
                    assert(assoc_keys(self.vars()) =~= assoc_keys(s));
                    lemma_assoc_get_none(s, key@);
                }
            },
            None => {
                self.variables.push((key.to_owned(), value.to_owned()));
                proof {
                    assert(self.vars() =~= s.push((key@, value@)));
                    lemma_assoc_get_push(s, (key@, value@));
                    lemma_assoc_get_none(s, key@);
                    assert(assoc_keys(self.vars()) =~= assoc_keys(s).push(key@));
                    assert forall|j: int| 0 <= j < assoc_keys(s).len() implies assoc_keys(s)[j]
                        != key@ by {
                        assert(assoc_keys(s)[j] == s[j].0);
                    }
                }
            },
        }
    }

    /// Removes one variable, returning the value it had.
    pub fn remove_variable(&mut self, key: &str) -> (r: Option<String>)
        requires
            old(self).wf(),
        ensures
            final(self).wf(),
            final(self).deps() == old(self).deps(),
            match r {
                Some(v) => Some(v@) == assoc_get(old(self).vars(), key@),
                None => assoc_get(old(self).vars(), key@) is None,
            },
            forall|k: Seq<char>|
                assoc_get(final(self).vars(), k) == if k == key@ {
                    None::<Seq<char>>
                } else {
                    assoc_get(old(self).vars(), k)
                },
    {
        let ghost s = self.vars();
        match self.find_variable(key) {
            Some(i) => {
                let entry = self.variables.remove(i);
                proof {
                    assert(self.vars() =~= s.remove(i as int));
                    lemma_assoc_get_remove(s, i as int);
                    assert(assoc_keys(self.vars()) =~= assoc_keys(s).remove(i as int));
                    let keys = assoc_keys(s);
                    let k2 = keys.remove(i as int);
                    assert forall|a: int, b: int| 0 <= a < b < k2.len() implies k2[a] != k2[b] by {
                        let a1 = if a < i { a } else { a + 1 };
                        let b1 = if b < i { b } else { b + 1 };
                        assert(k2[a] == keys[a1]);
                        assert(k2[b] == keys[b1]);
                    }
                    lemma_assoc_get_at(s, i as int);
                }
                Some(entry.1)
            },
            None => {
                proof {
                    lemma_assoc_get_none(s, key@);
                }
                None
            },
        }
    }
}

/// On a list whose keys are distinct, the lookup of entry `i`'s key returns
/// entry `i`'s value.
pub proof fn lemma_assoc_get_at<V>(s: Seq<(Seq<char>, V)>, i: int)
    requires
        0 <= i < s.len(),
        assoc_keys(s).no_duplicates(),
    ensures
        assoc_get(s, s[i].0) == Some(s[i].1),
    decreases i,
{
    if i > 0 {
        let t = s.drop_first();
        assert(assoc_keys(t) =~= assoc_keys(s).drop_first());
        lemma_assoc_get_at(t, i - 1);
        assert(assoc_keys(s)[0] == s[0].0);
        assert(assoc_keys(s)[i] == s[i].0);
    }
}

/// A list of profile names, as handed to callers that display or pick
/// from them.
#[derive(Debug)]
pub struct ProfileNames(pub Vec<String>);

/// The in-memory set of loaded profiles: one working copy per name.
#[derive(Debug)]
pub struct ProfileSet {
    entries: Vec<(String, Profile)>,
}

impl ProfileSet {
    /// The entries with their names spelled out.
    pub closed spec fn view_entries(self) -> Seq<(Seq<char>, Profile)> {
        self.entries@.map_values(|e: (String, Profile)| (e.0@, e.1))
    }

    /// The profile stored under a name, if any.
    pub open spec fn lookup(self, nm: Seq<char>) -> Option<Profile> {
        assoc_get(self.view_entries(), nm)
    }

    /// The stored names, in insertion order.
    pub open spec fn names_view(self) -> Seq<Seq<char>> {
        assoc_keys(self.view_entries())
    }

    /// A name is stored here.
    pub open spec fn contains_name(self, nm: Seq<char>) -> bool {
        self.lookup(nm) is Some
    }

    /// Each name is stored at most once.
    pub open spec fn wf(self) -> bool {
        self.names_view().no_duplicates()
    }

    pub fn new() -> (s: ProfileSet)
        ensures
            s.wf(),
            forall|nm: Seq<char>| s.lookup(nm) is None,
            s.names_view() =~= Seq::<Seq<char>>::empty(),
    {
        let s = ProfileSet { entries: Vec::new() };
        proof {
            assert(s.view_entries() =~= Seq::<(Seq<char>, Profile)>::empty());
            assert forall|nm: Seq<char>| s.lookup(nm) is None by {}
        }
        s
    }

    /// Finds the index of the entry stored under `name`, if any.
    fn find_entry(&self, name: &str) -> (r: Option<usize>)
        ensures
            match r {
                Some(i) => i < self.view_entries().len() && self.view_entries()[i as int].0
                    == name@,
                None => forall|j: int|
                    0 <= j < self.view_entries().len() ==> self.view_entries()[j].0 != name@,
            },
    {
        let n = self.entries.len();
        for i in 0..n
            invariant
                n == self.entries.len(),
                forall|j: int| 0 <= j < i ==> self.view_entries()[j].0 != name@,
        {
            proof {
                assert(self.view_entries()[i as int] == (self.entries@[i as int].0@, self.entries@[
                    i as int].1));
            }
            if str_eq(self.entries[i].0.as_str(), name) {
                return Some(i);
            }
        }
        None
    }

    pub fn has_profile(&self, name: &str) -> (r: bool)
        ensures
            r == self.contains_name(name@),
    {
        let found = self.find_entry(name);
        proof {
            lemma_assoc_get_none(self.view_entries(), name@);
        }
        found.is_some()
    }

    /// Reads the working copy stored under `name`.
    pub fn read_profile(&self, name: &str) -> (r: Option<&Profile>)
        requires
            self.wf(),
        ensures
            match r {
                Some(p) => self.lookup(name@) == Some(*p),
                None => self.lookup(name@) is None,
            },
    {
        match self.find_entry(name) {
            Some(i) => {
                proof {
                    lemma_assoc_get_at_found(self.view_entries(), i as int, name@);
                }
                Some(&self.entries[i].1)
            },
            None => {
                proof {
                    lemma_assoc_get_none(self.view_entries(), name@);
                }
                None
            },
        }
    }

    /// Stores a working copy under `name`, replacing any previous one.
    pub fn add_profile(&mut self, name: &str, profile: Profile)
        requires
            old(self).wf(),
        ensures
            final(self).wf(),
            forall|nm: Seq<char>|
                final(self).lookup(nm) == if nm == name@ {
                    Some(profile)
                } else {
                    old(self).lookup(nm)
                },
            final(self).names_view() =~= if old(self).contains_name(name@) {
                old(self).names_view()
            } else {
                old(self).names_view().push(name@)
            },
    {
        let ghost s0 = self.view_entries();
        match self.find_entry(name) {
            Some(i) => {
                self.entries.set(i, (name.to_owned(), profile));
                proof {
                    assert(self.view_entries() =~= s0.update(i as int, (s0[i as int].0, profile)));
                    lemma_assoc_get_update(s0, i as int, profile);
                    assert(assoc_keys(self.view_entries()) =~= assoc_keys(s0));
                    lemma_assoc_get_at_found(s0, i as int, name@);
                }
            },
            None => {
                self.entries.push((name.to_owned(), profile));
                proof {
                    assert(self.view_entries() =~= s0.push((name@, profile)));
                    lemma_assoc_get_push(s0, (name@, profile));
                    lemma_assoc_get_none(s0, name@);
                    assert(assoc_keys(self.view_entries()) =~= assoc_keys(s0).push(name@));
                    assert forall|j: int| 0 <= j < assoc_keys(s0).len() implies assoc_keys(s0)[j]
                        != name@ by {
                        assert(assoc_keys(s0)[j] == s0[j].0);
                    }
                }
            },
        }
    }

    /// Removes the working copy stored under `name`, returning it.
    pub fn remove_profile(&mut self, name: &str) -> (r: Option<Profile>)
        requires
            old(self).wf(),
        ensures
            final(self).wf(),
            r == old(self).lookup(name@),
            old(self).lookup(name@) is None ==> *final(self) == *old(self),
            forall|nm: Seq<char>|
                final(self).lookup(nm) == if nm == name@ {
                    None::<Profile>
                } else {
                    old(self).lookup(nm)
                },
    {
        let ghost s0 = self.view_entries();
        match self.find_entry(name) {
            Some(i) => {
                let entry = self.entries.remove(i);
                proof {
                    assert(self.view_entries() =~= s0.remove(i as int));
                    lemma_assoc_get_remove(s0, i as int);
                    assert(assoc_keys(self.view_entries()) =~= assoc_keys(s0).remove(i as int));
                    let keys = assoc_keys(s0);
                    let k2 = keys.remove(i as int);
                    assert forall|a: int, b: int| 0 <= a < b < k2.len() implies k2[a] != k2[b] by {
                        let a1 = if a < i as int {
                            a
                        } else {
                            a + 1
                        };
                        let b1 = if b < i as int {
                            b
                        } else {
                            b + 1
                        };
                        assert(k2[a] == keys[a1]);
                        assert(k2[b] == keys[b1]);
                    }
                    lemma_assoc_get_at_found(s0, i as int, name@);
                    assert(s0[i as int].1 == entry.1);
                }
                Some(entry.1)
            },
            None => {
                proof {
                    lemma_assoc_get_none(s0, name@);
                }
                None
            },
        }
    }

    /// How many profiles are stored.
    pub fn len(&self) -> (r: usize)
        ensures
            r == self.view_entries().len(),
    {
        self.entries.len()
    }

    /// The name of the entry at a position.
    pub fn name_at(&self, i: usize) -> (r: &String)
        requires
            (i as int) < self.view_entries().len(),
        ensures
            r@ == self.view_entries()[i as int].0,
    {
        proof {
            assert(self.view_entries()[i as int] == (self.entries@[i as int].0@, self.entries@[
                i as int].1));
        }
        &self.entries[i].0
    }

    /// The profile of the entry at a position.
    pub fn profile_at(&self, i: usize) -> (r: &Profile)
        requires
            (i as int) < self.view_entries().len(),
        ensures
            *r == self.view_entries()[i as int].1,
    {
        proof {
            assert(self.view_entries()[i as int] == (self.entries@[i as int].0@, self.entries@[
                i as int].1));
        }
        &self.entries[i].1
    }

    /// Lists the stored names, in insertion order.
    pub fn profile_names(&self) -> (r: Vec<String>)
        ensures
            r.deep_view() =~= self.names_view(),
    {
        let n = self.entries.len();
        let mut out: Vec<String> = Vec::new();
        for i in 0..n
            invariant
                n == self.entries.len(),
                out.deep_view().len() == i,
                forall|j: int| 0 <= j < i ==> out.deep_view()[j] == self.names_view()[j],
        {
            out.push(self.entries[i].0.clone());
            proof {
                assert forall|j: int| 0 <= j < i + 1 implies out.deep_view()[j]
                    == self.names_view()[j] by {
                    if j == i as int {
                        assert(out@[j] == self.entries@[j].0);
                        assert(self.names_view()[j] == self.view_entries()[j].0);
                        assert(self.view_entries()[j] == (self.entries@[j].0@, self.entries@[
                            j].1));
                    }
                }
            }
        }
        proof {
            assert(self.names_view().len() == self.view_entries().len());
        }
        out
    }
}

/// On a list with distinct keys, the entry found at `i` under key `k`
/// settles the lookup of `k`.
pub proof fn lemma_assoc_get_at_found<V>(s: Seq<(Seq<char>, V)>, i: int, k: Seq<char>)
    requires
        0 <= i < s.len(),
        s[i].0 == k,
        assoc_keys(s).no_duplicates(),
    ensures
        assoc_get(s, k) == Some(s[i].1),
{
    lemma_assoc_get_at(s, i);
}

} // verus!
