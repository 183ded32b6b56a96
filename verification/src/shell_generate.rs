//! Shell command lines for exporting and unsetting variables, with the
//! quoting each supported shell needs.

use vstd::prelude::*;

use vstd::string::StrSliceExecFns;

verus! {

/// The shells whose quoting rules are known here.
#[derive(Debug, Clone, Copy)]
pub enum ShellType {
    Bash,
    Zsh,
    Fish,
    PowerShell,
}

/// How one character of a value is written inside single quotes for a
/// POSIX shell: a quote closes the quoting, stands escaped, and reopens.
pub open spec fn posix_escaped_char(c: char) -> Seq<char> {
    if c == '\'' {
        "'\\''"@
    } else {
        seq![c]
    }
}

/// How one character of a value is written for fish.
pub open spec fn fish_escaped_char(c: char) -> Seq<char> {
    if c == '\\' {
        "\\\\"@
    } else if c == '\'' {
        "\\'"@
    } else {
        seq![c]
    }
}

/// How one character of a value is written inside double quotes for
/// PowerShell.
pub open spec fn pwsh_escaped_char(c: char) -> Seq<char> {
    if c == '`' {
        "``"@
    } else if c == '"' {
        "`\""@
    } else if c == '$' {
        "`$"@
    } else {
        seq![c]
    }
}

/// A whole value, escaped character by character.
pub open spec fn escaped_with(v: Seq<char>, f: spec_fn(char) -> Seq<char>) -> Seq<char>
    decreases v.len(),
{
    if v.len() == 0 {
        Seq::empty()
    } else {
        escaped_with(v.drop_last(), f) + f(v.last())
    }
}

/// Escapes a value character by character, appending either the
/// character itself or its replacement.
fn escape_str(value: &str, which: ShellType) -> (r: String)
    ensures
        r@ == escaped_with(
            value@,
            match which {
                ShellType::Bash | ShellType::Zsh => |c: char| posix_escaped_char(c),
                ShellType::Fish => |c: char| fish_escaped_char(c),
                ShellType::PowerShell => |c: char| pwsh_escaped_char(c),
            },
        ),
{
    let ghost f = (match which {
        ShellType::Bash | ShellType::Zsh => |c: char| posix_escaped_char(c),
        ShellType::Fish => |c: char| fish_escaped_char(c),
        ShellType::PowerShell => |c: char| pwsh_escaped_char(c),
    });
    let mut out = String::new();
    let n = value.unicode_len();
    for i in 0..n
        invariant
            n == value@.len(),
            f == (match which {
                ShellType::Bash | ShellType::Zsh => |c: char| posix_escaped_char(c),
                ShellType::Fish => |c: char| fish_escaped_char(c),
                ShellType::PowerShell => |c: char| pwsh_escaped_char(c),
            }),
            out@ == escaped_with(value@.take(i as int), f),
    {
        let c = value.get_char(i);
        match which {
            ShellType::Bash | ShellType::Zsh => {
                if c == '\'' {
                    out.append("'\\''");
                } else {
                    out.append(value.substring_char(i, i + 1));
                }
            },
            ShellType::Fish => {
                if c == '\\' {
                    out.append("\\\\");
                } else if c == '\'' {
                    out.append("\\'");
                } else {
                    out.append(value.substring_char(i, i + 1));
                }
            },
            ShellType::PowerShell => {
                if c == '`' {
                    out.append("``");
                } else if c == '"' {
                    out.append("`\"");
                } else if c == '$' {
                    out.append("`$");
                } else {
                    out.append(value.substring_char(i, i + 1));
                }
            },
        }
        proof {
            let pre = value@.take(i as int);
            let cur = value@.take(i + 1);
            assert(cur.drop_last() =~= pre);
            assert(cur.last() == value@[i as int]);
            assert(value@.subrange(i as int, i + 1) =~= seq![value@[i as int]]);
            assert(out@ == escaped_with(pre, f) + f(value@[i as int]));
        }
    }
    proof {
        assert(value@.take(n as int) =~= value@);
    }
    out
}

/// The export command for one variable, under each shell's quoting.
pub open spec fn export_cmd_view(sh: ShellType, k: Seq<char>, v: Seq<char>) -> Seq<char> {
    match sh {
        ShellType::Bash | ShellType::Zsh => "export "@ + k + "='"@ + escaped_with(
            v,
            |c: char| posix_escaped_char(c),
        ) + "'"@,
        ShellType::Fish => "set -gx "@ + k + " '"@ + escaped_with(
            v,
            |c: char| fish_escaped_char(c),
        ) + "'"@,
        ShellType::PowerShell => "$env:"@ + k + "=\""@ + escaped_with(
            v,
            |c: char| pwsh_escaped_char(c),
        ) + "\""@,
    }
}

/// The unset command for one variable.
pub open spec fn unset_cmd_view(sh: ShellType, k: Seq<char>) -> Seq<char> {
    match sh {
        ShellType::Bash | ShellType::Zsh => "unset "@ + k,
        ShellType::Fish => "set -e "@ + k,
        ShellType::PowerShell => "Remove-Item Env:"@ + k,
    }
}

/// Case-insensitive comparison of two ASCII characters.
pub open spec fn ascii_eq_nocase(c: char, d: char) -> bool {
    let cu = c as u32;
    let du = d as u32;
    cu == du || (('A' as u32) <= cu && cu <= ('Z' as u32) && cu + 32 == du) || (('A' as u32) <= du
        && du <= ('Z' as u32) && du + 32 == cu)
}

/// Case-insensitive equality of two strings of characters.
pub open spec fn seq_eq_nocase(a: Seq<char>, b: Seq<char>) -> bool {
    a.len() == b.len() && forall|i: int| 0 <= i < a.len() ==> ascii_eq_nocase(#[trigger] a[i], b[i])
}

/// Compares two strings, ignoring ASCII case.
fn str_eq_nocase(a: &str, b: &str) -> (r: bool)
    ensures
        r == seq_eq_nocase(a@, b@),
{
    let ca = crate::models::chars_of(a);
    let cb = crate::models::chars_of(b);
    if ca.len() != cb.len() {
        return false;
    }
    let n = ca.len();
    for i in 0..n
        invariant
            n == ca@.len(),
            n == cb@.len(),
            ca@ == a@,
            cb@ == b@,
            forall|j: int| 0 <= j < i ==> ascii_eq_nocase(#[trigger] a@[j], b@[j]),
    {
        let c = ca[i];
        let d = cb[i];
        let cu = c as u32;
        let du = d as u32;
        let m = !(cu == du || (65 <= cu && cu <= 90 && cu + 32 == du) || (65 <= du && du <= 90
            && du + 32 == cu));
        if m {
            proof {
                assert(('A' as u32) == 65 && ('Z' as u32) == 90);
                assert(!ascii_eq_nocase(a@[i as int], b@[i as int]));
            }
            return false;
        }
        proof {
            assert(('A' as u32) == 65 && ('Z' as u32) == 90);
            assert(ascii_eq_nocase(a@[i as int], b@[i as int]));
        }
    }
    true
}

impl ShellType {
    /// The message shown for a shell whose quoting is unknown here.
    pub fn unsupported_shell_error(shell: &str) -> (r: String)
        ensures
            r@ == shell@
                + " is not yet supported by env-manage.\nFor the time being, we support the following shells:\n* bash\n* zsh\n* fish\n* powershell\n* pwsh\n"@,
    {
        let mut out = shell.to_owned();
        out.append(
            " is not yet supported by env-manage.\nFor the time being, we support the following shells:\n* bash\n* zsh\n* fish\n* powershell\n* pwsh\n",
        );
        out
    }

    /// Recognizes a shell by name, ignoring case.
    pub fn try_from_name(value: &str) -> (r: Result<ShellType, String>)
        ensures
            match r {
                Ok(ShellType::Fish) => seq_eq_nocase(value@, "fish"@),
                Ok(ShellType::PowerShell) => seq_eq_nocase(value@, "pwsh"@) || seq_eq_nocase(
                    value@,
                    "powershell"@,
                ),
                Ok(ShellType::Bash) => seq_eq_nocase(value@, "bash"@),
                Ok(ShellType::Zsh) => seq_eq_nocase(value@, "zsh"@),
                Err(m) => {
                    &&& !seq_eq_nocase(value@, "fish"@)
                    &&& !seq_eq_nocase(value@, "pwsh"@)
                    &&& !seq_eq_nocase(value@, "powershell"@)
                    &&& !seq_eq_nocase(value@, "bash"@)
                    &&& !seq_eq_nocase(value@, "zsh"@)
                },
            },
    {
        if str_eq_nocase(value, "fish") {
            Ok(ShellType::Fish)
        } else if str_eq_nocase(value, "pwsh") {
            Ok(ShellType::PowerShell)
        } else if str_eq_nocase(value, "powershell") {
            Ok(ShellType::PowerShell)
        } else if str_eq_nocase(value, "bash") {
            Ok(ShellType::Bash)
        } else if str_eq_nocase(value, "zsh") {
            Ok(ShellType::Zsh)
        } else {
            Err(Self::unsupported_shell_error(value))
        }
    }

    /// The export command this shell needs for one variable.
    pub fn export_cmd(&self, key: &str, value: &str) -> (r: String)
        ensures
            r@ == export_cmd_view(*self, key@, value@),
    {
        match self {
            ShellType::Bash | ShellType::Zsh => {
                let escaped = escape_str(value, ShellType::Bash);
                let mut out = String::new();
                out.append("export ");
                out.append(key);
                out.append("='");
                out.append(escaped.as_str());
                out.append("'");
                proof {
                    assert(out@ =~= export_cmd_view(*self, key@, value@));
                }
                out
            },
            ShellType::Fish => {
                let escaped = escape_str(value, ShellType::Fish);
                let mut out = String::new();
                out.append("set -gx ");
                out.append(key);
                out.append(" '");
                out.append(escaped.as_str());
                out.append("'");
                proof {
                    assert(out@ =~= export_cmd_view(*self, key@, value@));
                }
                out
            },
            ShellType::PowerShell => {
                let escaped = escape_str(value, ShellType::PowerShell);
                let mut out = String::new();
                out.append("$env:");
                out.append(key);
                out.append("=\"");
                out.append(escaped.as_str());
                out.append("\"");
                proof {
                    assert(out@ =~= export_cmd_view(*self, key@, value@));
                }
                out
            },
        }
    }

    /// The unset command this shell needs for one variable.
    pub fn unset_cmd(&self, key: &str) -> (r: String)
        ensures
            r@ == unset_cmd_view(*self, key@),
    {
        match self {
            ShellType::Bash | ShellType::Zsh => {
                let mut out = String::new();
                out.append("unset ");
                out.append(key);
                proof {
                    assert(out@ =~= unset_cmd_view(*self, key@));
                }
                out
            },
            ShellType::Fish => {
                let mut out = String::new();
                out.append("set -e ");
                out.append(key);
                proof {
                    assert(out@ =~= unset_cmd_view(*self, key@));
                }
                out
            },
            ShellType::PowerShell => {
                let mut out = String::new();
                out.append("Remove-Item Env:");
                out.append(key);
                proof {
                    assert(out@ =~= unset_cmd_view(*self, key@));
                }
                out
            },
        }
    }
}

/// Commands joined with newlines.
pub open spec fn joined_lines(cmds: Seq<Seq<char>>) -> Seq<char>
    decreases cmds.len(),
{
    if cmds.len() == 0 {
        Seq::empty()
    } else if cmds.len() == 1 {
        cmds[0]
    } else {
        joined_lines(cmds.drop_last()) + "\n"@ + cmds.last()
    }
}

/// Accumulates shell commands for one shell and renders them behind the
/// marker line the shell wrappers look for.
pub struct ShellGenerate {
    shell: ShellType,
    commands: Vec<String>,
}

impl ShellGenerate {
    /// The shell the commands are written for.
    pub closed spec fn shell_view(self) -> ShellType {
        self.shell
    }

    /// The accumulated command lines.
    pub closed spec fn commands_view(self) -> Seq<Seq<char>> {
        self.commands.deep_view()
    }

    pub fn new(shell: ShellType) -> (g: ShellGenerate)
        ensures
            g.shell_view() == shell,
            g.commands_view() =~= Seq::<Seq<char>>::empty(),
    {
        ShellGenerate { shell, commands: Vec::new() }
    }

    /// Queues an export command for one variable.
    pub fn export(&mut self, key: &str, value: &str)
        ensures
            final(self).shell_view() == old(self).shell_view(),
            final(self).commands_view() =~= old(self).commands_view().push(
                export_cmd_view(old(self).shell_view(), key@, value@),
            ),
    {
        let cmd = self.shell.export_cmd(key, value);
        self.commands.push(cmd);
    }

    /// Queues an unset command for one variable.
    pub fn unset(&mut self, key: &str)
        ensures
            final(self).shell_view() == old(self).shell_view(),
            final(self).commands_view() =~= old(self).commands_view().push(
                unset_cmd_view(old(self).shell_view(), key@),
            ),
    {
        let cmd = self.shell.unset_cmd(key);
        self.commands.push(cmd);
    }

    /// Queues an export command for every variable of a mapping, in order.
    pub fn export_from_map(&mut self, vars: &Vec<(String, String)>)
        ensures
            final(self).shell_view() == old(self).shell_view(),
            final(self).commands_view().len() == old(self).commands_view().len()
                + vars.deep_view().len(),
            forall|k: int|
                0 <= k < old(self).commands_view().len() ==> final(self).commands_view()[k] == old(
                    self,
                ).commands_view()[k],
            forall|k: int|
                0 <= k < vars.deep_view().len() ==> final(self).commands_view()[old(
                    self,
                ).commands_view().len() + k] == export_cmd_view(
                    old(self).shell_view(),
                    (#[trigger] vars.deep_view()[k]).0,
                    vars.deep_view()[k].1,
                ),
    {
        let n = vars.len();
        for i in 0..n
            invariant
                n == vars.deep_view().len(),
                self.shell_view() == old(self).shell_view(),
                self.commands_view().len() == old(self).commands_view().len() + i,
                forall|k: int|
                    0 <= k < old(self).commands_view().len() ==> self.commands_view()[k] == old(
                        self,
                    ).commands_view()[k],
                forall|k: int|
                    0 <= k < i ==> self.commands_view()[old(self).commands_view().len() + k]
                        == export_cmd_view(
                        old(self).shell_view(),
                        (#[trigger] vars.deep_view()[k]).0,
                        vars.deep_view()[k].1,
                    ),
        {
            proof {
                assert(vars.deep_view()[i as int] == (vars@[i as int].0@, vars@[i as int].1@));
            }
            self.export(vars[i].0.as_str(), vars[i].1.as_str());
        }
    }

    /// Queues an unset command for every variable of a mapping, in order.
    pub fn unset_from_map(&mut self, vars: &Vec<(String, String)>)
        ensures
            final(self).shell_view() == old(self).shell_view(),
            final(self).commands_view().len() == old(self).commands_view().len()
                + vars.deep_view().len(),
            forall|k: int|
                0 <= k < old(self).commands_view().len() ==> final(self).commands_view()[k] == old(
                    self,
                ).commands_view()[k],
            forall|k: int|
                0 <= k < vars.deep_view().len() ==> final(self).commands_view()[old(
                    self,
                ).commands_view().len() + k] == unset_cmd_view(
                    old(self).shell_view(),
                    (#[trigger] vars.deep_view()[k]).0,
                ),
    {
        let n = vars.len();
        for i in 0..n
            invariant
                n == vars.deep_view().len(),
                self.shell_view() == old(self).shell_view(),
                self.commands_view().len() == old(self).commands_view().len() + i,
                forall|k: int|
                    0 <= k < old(self).commands_view().len() ==> self.commands_view()[k] == old(
                        self,
                    ).commands_view()[k],
                forall|k: int|
                    0 <= k < i ==> self.commands_view()[old(self).commands_view().len() + k]
                        == unset_cmd_view(
                        old(self).shell_view(),
                        (#[trigger] vars.deep_view()[k]).0,
                    ),
        {
            proof {
                assert(vars.deep_view()[i as int] == (vars@[i as int].0@, vars@[i as int].1@));
            }
            self.unset(vars[i].0.as_str());
        }
    }

    /// Renders the queued commands behind the marker line; nothing queued
    /// renders as nothing.
    pub fn build(&self) -> (r: String)
        ensures
            r@ == if self.commands_view().len() == 0 {
                Seq::<char>::empty()
            } else {
                crate::SHELL_MARK@ + "\n"@ + joined_lines(self.commands_view())
            },
    {
        let mut out = String::new();
        if self.commands.len() == 0 {
            proof {
                assert(out@ =~= Seq::<char>::empty());
            }
            return out;
        }
        out.append(crate::SHELL_MARK);
        out.append("\n");
        let ghost cv = self.commands_view();
        let n = self.commands.len();
        for i in 0..n
            invariant
                cv == self.commands_view(),
                n == cv.len(),
                n > 0,
                out@ == if i == 0 {
                    crate::SHELL_MARK@ + "\n"@
                } else {
                    crate::SHELL_MARK@ + "\n"@ + joined_lines(cv.take(i as int))
                },
        {
            if i > 0 {
                out.append("\n");
            }
            out.append(self.commands[i].as_str());
            proof {
                assert(cv[i as int] == self.commands@[i as int]@);
                assert(cv.take(i + 1).drop_last() =~= cv.take(i as int));
                assert(cv.take(i + 1).last() == cv[i as int]);
                if i == 0 {
                    assert(out@ =~= crate::SHELL_MARK@ + "\n"@ + joined_lines(cv.take(1)));
                } else {
                    assert(out@ =~= crate::SHELL_MARK@ + "\n"@ + (joined_lines(cv.take(i as int))
                        + "\n"@ + cv[i as int]));
                    assert(crate::SHELL_MARK@ + "\n"@ + (joined_lines(cv.take(i as int)) + "\n"@
                        + cv[i as int]) =~= crate::SHELL_MARK@ + "\n"@ + joined_lines(
                        cv.take(i + 1),
                    ));
                }
            }
        }
        proof {
            assert(cv.take(n as int) =~= cv);
        }
        out
    }
}

} // verus!
