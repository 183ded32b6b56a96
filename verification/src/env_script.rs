//! Plain export/unset shell lines for a variable mapping.

use vstd::prelude::*;

verus! {

/// The export line for one variable.
pub open spec fn export_entry(k: Seq<char>, v: Seq<char>) -> Seq<char> {
    "export \""@ + k + "="@ + v + "\""@
}

/// The unset line for one variable.
pub open spec fn unset_entry(k: Seq<char>) -> Seq<char> {
    "unset \""@ + k + "\""@
}

/// Export lines for every variable, joined with semicolons.
pub open spec fn export_script_view(s: Seq<(Seq<char>, Seq<char>)>) -> Seq<char>
    decreases s.len(),
{
    if s.len() == 0 {
        Seq::empty()
    } else if s.len() == 1 {
        export_entry(s[0].0, s[0].1)
    } else {
        export_script_view(s.drop_last()) + ";"@ + export_entry(s.last().0, s.last().1)
    }
}

/// Unset lines for every variable, joined with semicolons.
pub open spec fn unset_script_view(s: Seq<(Seq<char>, Seq<char>)>) -> Seq<char>
    decreases s.len(),
{
    if s.len() == 0 {
        Seq::empty()
    } else if s.len() == 1 {
        unset_entry(s[0].0)
    } else {
        unset_script_view(s.drop_last()) + ";"@ + unset_entry(s.last().0)
    }
}

/// One shell line exporting every variable of the mapping.
pub fn generate_export_script(vars: &Vec<(String, String)>) -> (r: String)
    ensures
        r@ == export_script_view(vars.deep_view()),
{
    let ghost dv = vars.deep_view();
    let mut out = String::new();
    let n = vars.len();
    for i in 0..n
        invariant
            dv == vars.deep_view(),
            n == dv.len(),
            out@ == export_script_view(dv.take(i as int)),
    {
        if i > 0 {
            out.append(";");
        }
        out.append("export \"");
        out.append(vars[i].0.as_str());
        out.append("=");
        out.append(vars[i].1.as_str());
        out.append("\"");
        proof {
            assert(dv[i as int] == (vars@[i as int].0@, vars@[i as int].1@));
            assert(dv.take(i + 1).drop_last() =~= dv.take(i as int));
            assert(dv.take(i + 1).last() == dv[i as int]);
            if i == 0 {
                assert(out@ =~= export_entry(dv[0].0, dv[0].1));
            } else {
                assert(out@ =~= export_script_view(dv.take(i as int)) + ";"@ + export_entry(
                    dv[i as int].0,
                    dv[i as int].1,
                ));
            }
        }
    }
    proof {
        assert(dv.take(n as int) =~= dv);
    }
    out
}

/// One shell line unsetting every variable of the mapping.
pub fn generate_unset_script(vars: &Vec<(String, String)>) -> (r: String)
    ensures
        r@ == unset_script_view(vars.deep_view()),
{
    let ghost dv = vars.deep_view();
    let mut out = String::new();
    let n = vars.len();
    for i in 0..n
        invariant
            dv == vars.deep_view(),
            n == dv.len(),
            out@ == unset_script_view(dv.take(i as int)),
    {
        if i > 0 {
            out.append(";");
        }
        out.append("unset \"");
        out.append(vars[i].0.as_str());
        out.append("\"");
        proof {
            assert(dv[i as int] == (vars@[i as int].0@, vars@[i as int].1@));
            assert(dv.take(i + 1).drop_last() =~= dv.take(i as int));
            assert(dv.take(i + 1).last() == dv[i as int]);
            if i == 0 {
                assert(out@ =~= unset_entry(dv[0].0));
            } else {
                assert(out@ =~= unset_script_view(dv.take(i as int)) + ";"@ + unset_entry(
                    dv[i as int].0,
                ));
            }
        }
    }
    proof {
        assert(dv.take(n as int) =~= dv);
    }
    out
}

} // verus!
