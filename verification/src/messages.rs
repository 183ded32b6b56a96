//! Rendering errors for a reader.

use vstd::prelude::*;

use crate::graph::DependencyError;
use crate::loader::LoadError;

verus! {

broadcast use vstd::std_specs::vec::axiom_vec_decreases_to_view;

/// Parts joined with a separator.
pub open spec fn join_parts(parts: Seq<Seq<char>>, sep: Seq<char>) -> Seq<char>
    decreases parts.len(),
{
    if parts.len() == 0 {
        Seq::empty()
    } else if parts.len() == 1 {
        parts[0]
    } else {
        join_parts(parts.drop_last(), sep) + sep + parts.last()
    }
}

/// The rendering of a root cause that wraps nothing further.
pub open spec fn leaf_message_view(e: DependencyError) -> Seq<char> {
    match e {
        DependencyError::CircularDependency(path) => "Circular dependency detected: "@
            + join_parts(path.deep_view(), " -> "@),
        DependencyError::DependencyNotFound(parent, dep) => "Profile '"@ + parent@
            + "' references non-existent profile '"@ + dep@ + "'."@,
        DependencyError::ProfileNotFound(p) => "Profile '"@ + p@ + "' not found."@,
        DependencyError::ProfileIoError(p, c) => "Profile '"@ + p@ + "' could not be read: "@
            + c@,
        DependencyError::ProfileParseError(p, c) => "Profile '"@ + p@
            + "' could not be parsed: "@ + c@,
        _ => Seq::empty(),
    }
}

/// Each aggregated error, rendered.
pub open spec fn member_messages(v: Seq<DependencyError>) -> Seq<Seq<char>>
    decreases v
    via member_messages_dec
{
    Seq::new(
        v.len(),
        |i: int|
            if 0 <= i < v.len() {
                message_view(v[i])
            } else {
                Seq::empty()
            },
    )
}

#[via_fn]
proof fn member_messages_dec(v: Seq<DependencyError>) {
    assert forall|i: int| 0 <= i < v.len() implies (decreases_to!(v => v[i])) by {}
}

/// The rendering of an error: a breadcrumb of the profiles a failure was
/// met under, ending in the root cause; several aggregated errors render
/// one per line.
pub open spec fn message_view(e: DependencyError) -> Seq<char>
    decreases e
    via message_view_dec
{
    match e {
        DependencyError::DependencyChain { profile, cause } => "Trace: "@ + profile@ + " -> "@
            + trace_tail(*cause),
        DependencyError::MultipleErrors(v) => join_parts(member_messages(v@), "\n"@),
        _ => leaf_message_view(e),
    }
}

/// The breadcrumb continues through nested wrappers down to the root
/// cause.
pub open spec fn trace_tail(e: DependencyError) -> Seq<char>
    decreases e
    via trace_tail_dec
{
    match e {
        DependencyError::DependencyChain { profile, cause } => profile@ + " -> "@ + trace_tail(
            *cause,
        ),
        DependencyError::MultipleErrors(v) => join_parts(member_messages(v@), "\n"@),
        _ => leaf_message_view(e),
    }
}

#[via_fn]
proof fn message_view_dec(e: DependencyError) {
    broadcast use vstd::std_specs::vec::axiom_vec_decreases_to_view;

    match e {
        DependencyError::MultipleErrors(v) => {
            assert(decreases_to!(e => v));
            assert(decreases_to!(v => v@));
        },
        _ => {},
    }
}

#[via_fn]
proof fn trace_tail_dec(e: DependencyError) {
    broadcast use vstd::std_specs::vec::axiom_vec_decreases_to_view;

    match e {
        DependencyError::MultipleErrors(v) => {
            assert(decreases_to!(e => v));
            assert(decreases_to!(v => v@));
        },
        _ => {},
    }
}

/// Joins rendered parts with a separator.
fn join_strings(parts: &Vec<String>, sep: &str) -> (r: String)
    ensures
        r@ == join_parts(parts.deep_view(), sep@),
{
    let ghost dv = parts.deep_view();
    let mut out = String::new();
    let n = parts.len();
    for i in 0..n
        invariant
            dv == parts.deep_view(),
            n == dv.len(),
            out@ == join_parts(dv.take(i as int), sep@),
    {
        if i > 0 {
            out.append(sep);
        }
        out.append(parts[i].as_str());
        proof {
            assert(dv[i as int] == parts@[i as int]@);
            assert(dv.take(i + 1).drop_last() =~= dv.take(i as int));
            assert(dv.take(i + 1).last() == dv[i as int]);
            if i == 0 {
                assert(out@ =~= join_parts(dv.take(1), sep@));
            }
        }
    }
    proof {
        assert(dv.take(n as int) =~= dv);
    }
    out
}

impl DependencyError {
    /// Renders a root cause that wraps nothing further.
    fn leaf_message(&self) -> (r: String)
        requires
            !(self matches DependencyError::DependencyChain { .. }),
            !(self matches DependencyError::MultipleErrors(..)),
        ensures
            r@ == leaf_message_view(*self),
    {
        match self {
            DependencyError::CircularDependency(path) => {
                let mut out = String::new();
                out.append("Circular dependency detected: ");
                let joined = join_strings(path, " -> ");
                out.append(joined.as_str());
                proof {
                    assert(out@ =~= leaf_message_view(*self));
                }
                out
            },
            DependencyError::DependencyNotFound(parent, dep) => {
                let mut out = String::new();
                out.append("Profile '");
                out.append(parent.as_str());
                out.append("' references non-existent profile '");
                out.append(dep.as_str());
                out.append("'.");
                proof {
                    assert(out@ =~= leaf_message_view(*self));
                }
                out
            },
            DependencyError::ProfileNotFound(p) => {
                let mut out = String::new();
                out.append("Profile '");
                out.append(p.as_str());
                out.append("' not found.");
                proof {
                    assert(out@ =~= leaf_message_view(*self));
                }
                out
            },
            DependencyError::ProfileIoError(p, c) => {
                let mut out = String::new();
                out.append("Profile '");
                out.append(p.as_str());
                out.append("' could not be read: ");
                out.append(c.as_str());
                proof {
                    assert(out@ =~= leaf_message_view(*self));
                }
                out
            },
            DependencyError::ProfileParseError(p, c) => {
                let mut out = String::new();
                out.append("Profile '");
                out.append(p.as_str());
                out.append("' could not be parsed: ");
                out.append(c.as_str());
                proof {
                    assert(out@ =~= leaf_message_view(*self));
                }
                out
            },
            _ => {
                proof {
                    assert(false);
                }
                String::new()
            },
        }
    }

    /// Renders the aggregated errors, one per line.
    fn multi_message(v: &Vec<DependencyError>) -> (r: String)
        ensures
            r@ == join_parts(member_messages(v@), "\n"@),
        decreases *v, 1int,
    {
        let ghost mv = member_messages(v@);
        let mut rendered: Vec<String> = Vec::new();
        let n = v.len();
        for i in 0..n
            invariant
                mv == member_messages(v@),
                n == v@.len(),
                rendered.deep_view().len() == i,
                forall|j: int| 0 <= j < i ==> rendered.deep_view()[j] == mv[j],
        {
            proof {
                broadcast use vstd::std_specs::vec::axiom_vec_decreases_to_view;

                assert(decreases_to!(*v => v@));
                assert(decreases_to!(v@ => v@[i as int]));
            }
            let m = v[i].message();
            rendered.push(m);
            proof {
                assert forall|j: int| 0 <= j < i + 1 implies rendered.deep_view()[j]
                    == mv[j] by {
                    if j == i as int {
                        assert(rendered@[j]@ == message_view(v@[j]));
                    }
                }
            }
        }
        let out = join_strings(&rendered, "\n");
        proof {
            assert(rendered.deep_view() =~= mv);
        }
        out
    }

    /// Renders the error for a reader: the breadcrumb of profiles the
    /// failure was met under, then the root cause.
    pub fn message(&self) -> (r: String)
        ensures
            r@ == message_view(*self),
        decreases *self, 0int,
    {
        match self {
            DependencyError::DependencyChain { profile, cause } => {
                let mut out = String::new();
                out.append("Trace: ");
                out.append(profile.as_str());
                out.append(" -> ");
                let tail = cause.trace_tail_message();
                out.append(tail.as_str());
                proof {
                    assert(out@ =~= message_view(*self));
                }
                out
            },
            DependencyError::MultipleErrors(v) => {
                proof {
                    assert(decreases_to!(*self => *v));
                }
                let r = Self::multi_message(v);
                proof {
                    assert(r@ == message_view(*self));
                }
                r
            },
            _ => {
                let r = self.leaf_message();
                proof {
                    assert(r@ == message_view(*self));
                }
                r
            },
        }
    }

    /// Renders the continuation of a breadcrumb.
    fn trace_tail_message(&self) -> (r: String)
        ensures
            r@ == trace_tail(*self),
        decreases *self, 2int,
    {
        match self {
            DependencyError::DependencyChain { profile, cause } => {
                let mut out = String::new();
                out.append(profile.as_str());
                out.append(" -> ");
                let tail = cause.trace_tail_message();
                out.append(tail.as_str());
                proof {
                    assert(out@ =~= trace_tail(*self));
                }
                out
            },
            DependencyError::MultipleErrors(v) => {
                proof {
                    assert(decreases_to!(*self => *v));
                }
                let r = Self::multi_message(v);
                proof {
                    assert(r@ == trace_tail(*self));
                }
                r
            },
            _ => {
                let r = self.leaf_message();
                proof {
                    assert(r@ == trace_tail(*self));
                }
                r
            },
        }
    }
}

impl LoadError {
    /// Renders the storage-boundary failure for a reader.
    pub fn message(&self) -> (r: String)
        ensures
            r@ == load_message_view(*self),
    {
        match self {
            LoadError::Io(c) => {
                let mut out = String::new();
                out.append("IO error: ");
                out.append(c.as_str());
                proof {
                    assert(out@ =~= load_message_view(*self));
                }
                out
            },
            LoadError::Parse(c) => {
                let mut out = String::new();
                out.append("Parse error: ");
                out.append(c.as_str());
                proof {
                    assert(out@ =~= load_message_view(*self));
                }
                out
            },
            LoadError::NotFound(n) => {
                let mut out = String::new();
                out.append("Profile '");
                out.append(n.as_str());
                out.append("' not found");
                proof {
                    assert(out@ =~= load_message_view(*self));
                }
                out
            },
        }
    }
}

/// The rendering of a storage-boundary failure.
pub open spec fn load_message_view(e: LoadError) -> Seq<char> {
    match e {
        LoadError::Io(c) => "IO error: "@ + c@,
        LoadError::Parse(c) => "Parse error: "@ + c@,
        LoadError::NotFound(n) => "Profile '"@ + n@ + "' not found"@,
    }
}

} // verus!
