//! Namespaced identifiers: a non-empty name, optionally qualified by a
//! namespace, written `name` or `namespace::name`.

use vstd::prelude::*;
use crate::text::{chars_of, is_name_char, name_char, string_of};

verus! {

/// Mathematical value of an identifier.
pub struct IdentV {
    pub name: Seq<char>,
    pub namespace: Option<Seq<char>>,
}

/// A namespaced name. Both parts take part in equality; the unnamespaced
/// form is distinct from every namespaced form.
#[derive(Debug, Clone)]
pub struct Identifier {
    pub name: String,
    pub namespace: Option<String>,
}

impl View for Identifier {
    type V = IdentV;

    open spec fn view(&self) -> IdentV {
        IdentV {
            name: self.name@,
            namespace: match self.namespace {
                Some(ns) => Some(ns@),
                None => None,
            },
        }
    }
}

/// A valid name part: non-empty, made of name characters only.
pub open spec fn valid_name(s: Seq<char>) -> bool {
    s.len() > 0 && forall|i: int| 0 <= i < s.len() ==> is_name_char(s[i])
}

/// Index of the first colon in `t` at or after `i`, if any.
pub open spec fn first_colon_from(t: Seq<char>, i: int) -> Option<int>
    decreases t.len() - i,
{
    if i < 0 || i >= t.len() {
        None
    } else if t[i] == ':' {
        Some(i)
    } else {
        first_colon_from(t, i + 1)
    }
}

/// Parse the text of an identifier: `name`, or `namespace::name` with
/// exactly one `::` separator. Anything else is a lexical error.
pub open spec fn spec_parse_ident(t: Seq<char>) -> Option<IdentV> {
    match first_colon_from(t, 0) {
        None => if valid_name(t) {
            Some(IdentV { name: t, namespace: None })
        } else {
            None
        },
        Some(p) => if p + 1 < t.len() && t[p + 1] == ':' && valid_name(t.subrange(0, p))
            && valid_name(t.subrange(p + 2, t.len() as int)) {
            Some(IdentV { name: t.subrange(p + 2, t.len() as int), namespace: Some(t.subrange(0, p)) })
        } else {
            None
        },
    }
}

/// `id` with `d` as its namespace when it has none of its own.
pub open spec fn with_default_namespace(id: IdentV, d: Option<Seq<char>>) -> IdentV {
    match id.namespace {
        Some(_) => id,
        None => IdentV { name: id.name, namespace: d },
    }
}

impl Identifier {
    /// An identifier from its two parts, taken as given.
    pub fn with_namespace(name: String, namespace: Option<String>) -> (r: Identifier)
        ensures
            r@.name == name@,
            r@.namespace == match namespace {
                Some(ns) => Some(ns@),
                None => None::<Seq<char>>,
            },
    {
        Identifier { name, namespace }
    }

    pub fn name(&self) -> (r: &str)
        ensures
            r@ == self@.name,
    {
        self.name.as_str()
    }

    /// Equality on both parts.
    pub fn is_same(&self, other: &Identifier) -> (r: bool)
        ensures
            r == (self@ == other@),
    {
        let names_eq = self.name == other.name;
        let ns_eq = match (&self.namespace, &other.namespace) {
            (Some(a), Some(b)) => *a == *b,
            (None, None) => true,
            _ => false,
        };
        names_eq && ns_eq
    }

    /// A copy whose value is the same.
    pub fn duplicate(&self) -> (r: Identifier)
        ensures
            r@ == self@,
    {
        Identifier {
            name: self.name.clone(),
            namespace: match &self.namespace {
                Some(ns) => Some(ns.clone()),
                None => None,
            },
        }
    }

    /// Parse `name` or `namespace::name`; when the text has no explicit
    /// namespace, `default_namespace` is applied. Returns `None` on a
    /// lexical error: empty parts, characters outside `[A-Za-z0-9_]`, or
    /// more than one separator.
    pub fn parse(s: &str, default_namespace: Option<&String>) -> (r: Option<Identifier>)
        ensures
            r is Some ==> spec_parse_ident(s@) is Some
                && r->Some_0@ == with_default_namespace(
                    spec_parse_ident(s@)->Some_0,
                    match default_namespace {
                        Some(d) => Some(d@),
                        None => None::<Seq<char>>,
                    },
                ),
            r is None ==> spec_parse_ident(s@) is None,
    {
        let t = chars_of(s);
        match ident_from_chars(&t) {
            Some(id) => Some(apply_default(id, default_namespace)),
            None => None,
        }
    }
}

/// `id` with the default namespace applied when it has none.
pub fn apply_default(id: Identifier, default_namespace: Option<&String>) -> (r: Identifier)
    ensures
        r@ == with_default_namespace(
            id@,
            match default_namespace {
                Some(d) => Some(d@),
                None => None::<Seq<char>>,
            },
        ),
{
    match id.namespace {
        Some(ns) => Identifier { name: id.name, namespace: Some(ns) },
        None => Identifier {
            name: id.name,
            namespace: match default_namespace {
                Some(d) => Some(d.clone()),
                None => None,
            },
        },
    }
}

/// Exec counterpart of `spec_parse_ident` over a character vector.
pub fn ident_from_chars(t: &Vec<char>) -> (r: Option<Identifier>)
    ensures
        r is Some ==> spec_parse_ident(t@) is Some && r->Some_0@ == spec_parse_ident(t@)->Some_0,
        r is None ==> spec_parse_ident(t@) is None,
{
    let n = t.len();
    // find the first colon
    let mut i: usize = 0;
    while i < n && t[i] != ':'
        invariant
            i <= n,
            n == t@.len(),
            forall|j: int| 0 <= j < i ==> t@[j] != ':',
            first_colon_from(t@, 0) == first_colon_from(t@, i as int),
        decreases n - i,
    {
        i += 1;
    }
    if i == n {
        proof {
            assert(first_colon_from(t@, i as int) is None);
            assert(t@.subrange(0, n as int) =~= t@);
        }
        // no colon: the whole text must be a valid name
        if check_name(t, 0, n) {
            let name = string_of(t);
            Some(Identifier { name, namespace: None })
        } else {
            None
        }
    } else {
        proof {
            assert(first_colon_from(t@, i as int) == Some(i as int));
        }
        // first colon at i: require a second one, then two valid names
        if i + 1 < n && t[i + 1] == ':' && check_name(t, 0, i)
            && check_name(t, i + 2, n) {
            let mut ns_chars: Vec<char> = Vec::new();
            let mut name_chars: Vec<char> = Vec::new();
            copy_range(t, 0, i, &mut ns_chars);
            copy_range(t, i + 2, n, &mut name_chars);
            let namespace = string_of(&ns_chars);
            let name = string_of(&name_chars);
            Some(Identifier { name, namespace: Some(namespace) })
        } else {
            None
        }
    }
}

/// True when `t[from..to]` is a valid name part.
fn check_name(t: &Vec<char>, from: usize, to: usize) -> (r: bool)
    requires
        from <= to <= t@.len(),
    ensures
        r == valid_name(t@.subrange(from as int, to as int)),
{
    if to == from {
        return false;
    }
    let mut i: usize = from;
    while i < to
        invariant
            from <= i <= to <= t@.len(),
            forall|j: int| from <= j < i ==> is_name_char(t@[j]),
        decreases to - i,
    {
        if !name_char(t[i]) {
            assert(!valid_name(t@.subrange(from as int, to as int))) by {
                assert(t@.subrange(from as int, to as int)[i - from] == t@[i as int]);
            }
            return false;
        }
        i += 1;
    }
    assert(valid_name(t@.subrange(from as int, to as int))) by {
        assert(forall|j: int| 0 <= j < to - from ==> t@.subrange(from as int, to as int)[j]
            == t@[j + from]);
    }
    true
}

/// Append `t[from..to]` to `out`.
pub fn copy_range(t: &Vec<char>, from: usize, to: usize, out: &mut Vec<char>)
    requires
        from <= to <= t@.len(),
        old(out)@.len() == 0,
    ensures
        final(out)@ == t@.subrange(from as int, to as int),
{
    let mut i: usize = from;
    while i < to
        invariant
            from <= i <= to <= t@.len(),
            out@ == t@.subrange(from as int, i as int),
        decreases to - i,
    {
        let c = t[i];
        out.push(c);
        proof {
            assert(t@.subrange(from as int, i + 1 as int) =~= t@.subrange(
                from as int,
                i as int,
            ).push(t@[i as int]));
        }
        i += 1;
    }
}

} // verus!
