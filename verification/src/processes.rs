//! A typed carrier over a shell command string, with environment-variable
//! expansion: `$NAME` and `${NAME}` references are replaced in-process from
//! a given mapping, absent names expanding to the empty string.

use vstd::prelude::*;
use crate::text::{chars_of, is_name_char, name_char, string_of};

verus! {

/// A shell command, carried as a typed value.
#[derive(Debug, Clone)]
pub struct ShellCommand<T> {
    command: T,
}

impl<T> ShellCommand<T> {
    pub closed spec fn spec_value(&self) -> T {
        self.command
    }

    pub fn new(command: T) -> (r: ShellCommand<T>)
        ensures
            r.spec_value() == command,
    {
        ShellCommand { command }
    }

    pub fn value(&self) -> (r: &T)
        ensures
            *r == self.spec_value(),
    {
        &self.command
    }
}

impl View for ShellCommand<String> {
    type V = Seq<char>;

    open spec fn view(&self) -> Seq<char> {
        self.spec_value()@
    }
}

/// A character that may start an environment-variable name: a letter or an
/// underscore, but not a digit.
pub open spec fn is_var_start(c: char) -> bool {
    is_name_char(c) && !(48 <= c as u32 && c as u32 <= 57)
}

/// Length of the run of name characters starting at `j`.
pub open spec fn name_run(s: Seq<char>, j: int) -> nat
    decreases s.len() - j,
{
    if j < 0 || j >= s.len() || !is_name_char(s[j]) {
        0
    } else {
        1 + name_run(s, j + 1)
    }
}

/// The value bound to `name`, earlier entries winning.
pub open spec fn env_lookup(vars: Seq<(String, String)>, name: Seq<char>) -> Option<Seq<char>>
    decreases vars.len(),
{
    if vars.len() == 0 {
        None
    } else if vars[0].0@ == name {
        Some(vars[0].1@)
    } else {
        env_lookup(vars.subrange(1, vars.len() as int), name)
    }
}

/// The value substituted for a reference to `name`: its binding, or the
/// empty string when it has none.
pub open spec fn env_value(vars: Seq<(String, String)>, name: Seq<char>) -> Seq<char> {
    match env_lookup(vars, name) {
        Some(v) => v,
        None => Seq::empty(),
    }
}

/// `s` from position `i` on, with every `$NAME` and `${NAME}` reference
/// expanded. A `$` that heads no well-formed reference stays as it is.
pub open spec fn env_expand_from(s: Seq<char>, i: int, vars: Seq<(String, String)>) -> Seq<char>
    decreases s.len() - i,
    via env_expand_from_decreases
{
    if i < 0 || i >= s.len() {
        Seq::empty()
    } else if s[i] == '$' {
        if i + 1 < s.len() && s[i + 1] == '{' {
            let b = name_run(s, i + 2);
            if b > 0 && is_var_start(s[i + 2]) && i + 2 + b < s.len() && s[i + 2 + b] == '}' {
                env_value(vars, s.subrange(i + 2, i + 2 + b)) + env_expand_from(s, i + 3 + b, vars)
            } else {
                seq!['$'] + env_expand_from(s, i + 1, vars)
            }
        } else if i + 1 < s.len() && is_var_start(s[i + 1]) {
            let b = name_run(s, i + 1);
            env_value(vars, s.subrange(i + 1, i + 1 + b)) + env_expand_from(s, i + 1 + b, vars)
        } else {
            seq!['$'] + env_expand_from(s, i + 1, vars)
        }
    } else {
        seq![s[i]] + env_expand_from(s, i + 1, vars)
    }
}

/// Bound on a name run: it never passes the end of the text.
pub proof fn lemma_name_run_bound(s: Seq<char>, j: int)
    requires
        0 <= j <= s.len(),
    ensures
        j + name_run(s, j) <= s.len(),
    decreases s.len() - j,
{
    if j < s.len() && is_name_char(s[j]) {
        lemma_name_run_bound(s, j + 1);
    }
}

#[via_fn]
proof fn env_expand_from_decreases(s: Seq<char>, i: int, vars: Seq<(String, String)>) {
    if 0 <= i && i + 1 < s.len() {
        lemma_name_run_bound(s, i + 1);
    }
}

/// `s` with every environment-variable reference expanded from `vars`.
pub open spec fn env_expand(s: Seq<char>, vars: Seq<(String, String)>) -> Seq<char> {
    env_expand_from(s, 0, vars)
}

/// True when the two character vectors hold the same characters.
fn eq_chars(a: &Vec<char>, b: &Vec<char>) -> (r: bool)
    ensures
        r == (a@ == b@),
{
    if a.len() != b.len() {
        proof {
            assert(a@ != b@);
        }
        return false;
    }
    let n = a.len();
    let mut i: usize = 0;
    while i < n
        invariant
            i <= n,
            n == a@.len(),
            n == b@.len(),
            forall|j: int| 0 <= j < i ==> a@[j] == b@[j],
        decreases n - i,
    {
        if a[i] != b[i] {
            proof {
                assert(a@ != b@);
            }
            return false;
        }
        i += 1;
    }
    proof {
        assert(a@ =~= b@);
    }
    true
}

/// The binding of `name` in `vars`, earlier entries winning.
fn lookup_env(vars: &Vec<(String, String)>, name: &Vec<char>) -> (r: Vec<char>)
    ensures
        r@ == env_value(vars@, name@),
{
    let n = vars.len();
    let mut i: usize = 0;
    proof {
        assert(vars@.subrange(0, n as int) =~= vars@);
    }
    while i < n
        invariant
            i <= n,
            n == vars@.len(),
            env_lookup(vars@, name@) == env_lookup(
                vars@.subrange(i as int, n as int),
                name@,
            ),
        decreases n - i,
    {
        let ghost rest = vars@.subrange(i as int, n as int);
        proof {
            assert(rest[0] == vars@[i as int]);
            assert(rest.subrange(1, rest.len() as int) =~= vars@.subrange(i + 1 as int, n as int));
        }
        let key = chars_of(vars[i].0.as_str());
        if eq_chars(&key, name) {
            return chars_of(vars[i].1.as_str());
        }
        i += 1;
    }
    proof {
        assert(vars@.subrange(n as int, n as int) =~= Seq::<(String, String)>::empty());
    }
    Vec::new()
}

/// Length of the run of name characters starting at `j`.
fn scan_name_run(s: &Vec<char>, j: usize) -> (r: usize)
    requires
        j <= s@.len(),
    ensures
        r == name_run(s@, j as int),
        j + r <= s@.len(),
{
    let n = s.len();
    let mut k = j;
    while k < n && name_char(s[k])
        invariant
            j <= k <= n,
            n == s@.len(),
            forall|q: int| j <= q < k ==> is_name_char(s@[q]),
            name_run(s@, j as int) == name_run(s@, k as int) + k - j,
        decreases n - k,
    {
        k += 1;
    }
    k - j
}

impl ShellCommand<String> {
    /// A new command in which every `$NAME` / `${NAME}` reference has been
    /// replaced by its binding in `variables`, or by the empty string when
    /// it has none. The result is a function of the command text and the
    /// mapping alone.
    pub fn replace_env_vars_in_command(&self, variables: &Vec<(String, String)>) -> (r:
        ShellCommand<String>)
        ensures
            r@ == env_expand(self@, variables@),
    {
        let s = chars_of(self.command.as_str());
        let n = s.len();
        let mut out: Vec<char> = Vec::new();
        let mut i: usize = 0;
        proof {
            assert(Seq::<char>::empty() + env_expand_from(s@, 0, variables@) =~= env_expand_from(
                s@,
                0,
                variables@,
            ));
        }
        while i < n
            invariant
                i <= n,
                n == s@.len(),
                env_expand(s@, variables@) == out@ + env_expand_from(s@, i as int, variables@),
            decreases n - i,
        {
            let ghost before = out@;
            let c = s[i];
            if c == '$' {
                if i + 1 < n && s[i + 1] == '{' {
                    let b = scan_name_run(&s, i + 2);
                    if b > 0 && !(48 <= s[i + 2] as u32 && s[i + 2] as u32 <= 57) && i + 2 + b < n
                        && s[i + 2 + b] == '}' {
                        let mut name: Vec<char> = Vec::new();
                        crate::identifiers::copy_range(&s, i + 2, i + 2 + b, &mut name);
                        let v = lookup_env(variables, &name);
                        crate::templates::append_chars(&mut out, &v);
                        proof {
                            assert(before + (v@ + env_expand_from(s@, i + 3 + b, variables@)) =~= (
                            before + v@) + env_expand_from(s@, i + 3 + b, variables@));
                        }
                        i = i + 3 + b;
                    } else {
                        out.push('$');
                        proof {
                            assert(before + (seq!['$'] + env_expand_from(s@, i + 1, variables@))
                                =~= before.push('$') + env_expand_from(s@, i + 1, variables@));
                        }
                        i += 1;
                    }
                } else if i + 1 < n && name_char(s[i + 1]) && !(48 <= s[i + 1] as u32 && s[i
                    + 1] as u32 <= 57) {
                    let b = scan_name_run(&s, i + 1);
                    let mut name: Vec<char> = Vec::new();
                    crate::identifiers::copy_range(&s, i + 1, i + 1 + b, &mut name);
                    let v = lookup_env(variables, &name);
                    crate::templates::append_chars(&mut out, &v);
                    proof {
                        assert(b > 0);
                        assert(before + (v@ + env_expand_from(s@, i + 1 + b, variables@)) =~= (
                        before + v@) + env_expand_from(s@, i + 1 + b, variables@));
                    }
                    i = i + 1 + b;
                } else {
                    out.push('$');
                    proof {
                        assert(before + (seq!['$'] + env_expand_from(s@, i + 1, variables@)) =~=
                        before.push('$') + env_expand_from(s@, i + 1, variables@));
                    }
                    i += 1;
                }
            } else {
                out.push(c);
                proof {
                    assert(before + (seq![s@[i as int]] + env_expand_from(s@, i + 1, variables@))
                        =~= before.push(s@[i as int]) + env_expand_from(s@, i + 1, variables@));
                }
                i += 1;
            }
        }
        proof {
            assert(out@ + env_expand_from(s@, i as int, variables@) =~= out@);
        }
        ShellCommand { command: string_of(&out) }
    }
}

} // verus!
