//! Substitution of resolved choices into command templates, the capability
//! that exposes it on records carrying a command and declared dependencies,
//! and the choice-resolution contract.

use vstd::prelude::*;
use crate::choices::{Choice, ChoiceMap, ChoiceV};
use crate::identifiers::{IdentV, Identifier, valid_name};
use crate::processes::ShellCommand;
use crate::templates::{append_chars, lemma_replace_free_identity, replace_all, replace_chars};
use crate::text::chars_of;
use crate::text::free_of;
use crate::text::string_of;

verus! {

/// The namespaced text of an identifier: `namespace::name`, with an empty
/// namespace part when the identifier has none.
pub open spec fn full_ident_text(dep: IdentV) -> Seq<char> {
    (match dep.namespace {
        Some(ns) => ns,
        None => Seq::<char>::empty(),
    }) + seq![':', ':'] + dep.name
}

/// One substitution step: every `{{ name }}` placeholder is replaced first,
/// then every `{{ namespace::name }}` placeholder, both by the same value.
pub open spec fn spec_substitute_choice(t: Seq<char>, dep: IdentV, v: Seq<char>) -> Seq<char> {
    replace_all(replace_all(t, dep.name, v, '{', '}'), full_ident_text(dep), v, '{', '}')
}

/// Substitute a choice for each dependency in turn; the first dependency
/// without a choice stops the walk and is reported.
pub open spec fn spec_substitute_all(
    t: Seq<char>,
    deps: Seq<IdentV>,
    m: Map<IdentV, ChoiceV>,
) -> Result<Seq<char>, IdentV>
    decreases deps.len(),
{
    if deps.len() == 0 {
        Ok(t)
    } else if m.contains_key(deps[0]) {
        spec_substitute_all(
            spec_substitute_choice(t, deps[0], m[deps[0]].value),
            deps.subrange(1, deps.len() as int),
            m,
        )
    } else {
        Err(deps[0])
    }
}

/// Substitute a choice for each dependency that has one; dependencies
/// without a choice are passed over.
pub open spec fn spec_substitute_partial(
    t: Seq<char>,
    deps: Seq<IdentV>,
    m: Map<IdentV, ChoiceV>,
) -> Seq<char>
    decreases deps.len(),
{
    if deps.len() == 0 {
        t
    } else {
        let t2 = if m.contains_key(deps[0]) {
            spec_substitute_choice(t, deps[0], m[deps[0]].value)
        } else {
            t
        };
        spec_substitute_partial(t2, deps.subrange(1, deps.len() as int), m)
    }
}

/// The views of a sequence of identifiers.
pub open spec fn views_of(deps: Seq<Identifier>) -> Seq<IdentV> {
    deps.map_values(|x: Identifier| x@)
}

/// The namespaced text of `dep`, as characters.
fn full_ident_chars(dep: &Identifier) -> (r: Vec<char>)
    ensures
        r@ == full_ident_text(dep@),
{
    let mut full: Vec<char> = Vec::new();
    match &dep.namespace {
        Some(ns) => {
            let nsc = chars_of(ns.as_str());
            append_chars(&mut full, &nsc);
        },
        None => {},
    }
    full.push(':');
    full.push(':');
    let name = chars_of(dep.name());
    append_chars(&mut full, &name);
    proof {
        assert(full@ =~= full_ident_text(dep@));
    }
    full
}

/// One substitution step over character vectors.
fn substitute_choice_chars(t: &Vec<char>, dep: &Identifier, v: &Vec<char>) -> (r: Vec<char>)
    ensures
        r@ == spec_substitute_choice(t@, dep@, v@),
{
    let name = chars_of(dep.name());
    let full = full_ident_chars(dep);
    let pass1 = replace_chars(t, &name, v, '{', '}');
    replace_chars(&pass1, &full, v, '{', '}')
}

/// Replace every placeholder for `dependency` in `origin` — `{{ name }}`
/// first, `{{ namespace::name }}` second — by `choice`.
pub fn substitute_choice(origin: &str, dependency: &Identifier, choice: &str) -> (r: String)
    ensures
        r@ == spec_substitute_choice(origin@, dependency@, choice@),
{
    let t = chars_of(origin);
    let v = chars_of(choice);
    let out = substitute_choice_chars(&t, dependency, &v);
    string_of(&out)
}

/// Substitute the choices of `choices` for every dependency of `deps` in
/// `command`. Fails on the first dependency without a choice, and succeeds
/// exactly when every dependency has one.
pub fn substitute_all(command: &str, deps: &Vec<Identifier>, choices: &ChoiceMap) -> (r: Result<
    String,
    ErrorsResolver,
>)
    ensures
        r is Ok ==> spec_substitute_all(command@, views_of(deps@), choices@) is Ok
            && r->Ok_0@ == spec_substitute_all(command@, views_of(deps@), choices@)->Ok_0,
        r is Err ==> spec_substitute_all(command@, views_of(deps@), choices@) is Err
            && (r->Err_0 matches ErrorsResolver::NoChoiceWasAvailable(id)
                && id@ == spec_substitute_all(command@, views_of(deps@), choices@)->Err_0),
{
    let mut cur = chars_of(command);
    let n = deps.len();
    let mut i: usize = 0;
    proof {
        assert(views_of(deps@).subrange(0, n as int) =~= views_of(deps@));
    }
    while i < n
        invariant
            i <= n,
            n == deps@.len(),
            spec_substitute_all(command@, views_of(deps@), choices@) == spec_substitute_all(
                cur@,
                views_of(deps@).subrange(i as int, n as int),
                choices@,
            ),
        decreases n - i,
    {
        let ghost rest = views_of(deps@).subrange(i as int, n as int);
        proof {
            assert(rest[0] == deps@[i as int]@);
            assert(rest.subrange(1, rest.len() as int) =~= views_of(deps@).subrange(
                i + 1 as int,
                n as int,
            ));
        }
        match choices.get(&deps[i]) {
            Some(chce) => {
                let v = chars_of(chce.value());
                cur = substitute_choice_chars(&cur, &deps[i], &v);
            },
            None => {
                let missing = deps[i].duplicate();
                return Err(ErrorsResolver::NoChoiceWasAvailable(missing));
            },
        }
        i += 1;
    }
    proof {
        assert(views_of(deps@).subrange(n as int, n as int) =~= Seq::<IdentV>::empty());
    }
    Ok(string_of(&cur))
}

/// Substitute the choices of `choices` for the dependencies of `deps` that
/// have one, leaving the others' placeholders in place.
pub fn substitute_partial(command: &str, deps: &Vec<Identifier>, choices: &ChoiceMap) -> (r:
    String)
    ensures
        r@ == spec_substitute_partial(command@, views_of(deps@), choices@),
{
    let mut cur = chars_of(command);
    let n = deps.len();
    let mut i: usize = 0;
    proof {
        assert(views_of(deps@).subrange(0, n as int) =~= views_of(deps@));
    }
    while i < n
        invariant
            i <= n,
            n == deps@.len(),
            spec_substitute_partial(command@, views_of(deps@), choices@)
                == spec_substitute_partial(
                cur@,
                views_of(deps@).subrange(i as int, n as int),
                choices@,
            ),
        decreases n - i,
    {
        let ghost rest = views_of(deps@).subrange(i as int, n as int);
        proof {
            assert(rest[0] == deps@[i as int]@);
            assert(rest.subrange(1, rest.len() as int) =~= views_of(deps@).subrange(
                i + 1 as int,
                n as int,
            ));
        }
        match choices.get(&deps[i]) {
            Some(chce) => {
                let v = chars_of(chce.value());
                cur = substitute_choice_chars(&cur, &deps[i], &v);
            },
            None => {},
        }
        i += 1;
    }
    proof {
        assert(views_of(deps@).subrange(n as int, n as int) =~= Seq::<IdentV>::empty());
    }
    string_of(&cur)
}

/// A choice value that introduces no placeholder delimiter.
pub open spec fn brace_free(v: Seq<char>) -> bool {
    free_of(v, '{') && free_of(v, '}')
}

/// Substituting anything into a brace-free text changes nothing.
pub proof fn lemma_substitute_choice_brace_free_identity(t: Seq<char>, dep: IdentV, v: Seq<char>)
    requires
        free_of(t, '{'),
    ensures
        spec_substitute_choice(t, dep, v) == t,
{
    lemma_replace_free_identity(t, dep.name, v, '{', '}');
    lemma_replace_free_identity(t, full_ident_text(dep), v, '{', '}');
}

/// A successful substitution found a choice for every dependency.
pub proof fn lemma_substitute_all_ok_deps(t: Seq<char>, deps: Seq<IdentV>, m: Map<IdentV, ChoiceV>)
    requires
        spec_substitute_all(t, deps, m) is Ok,
    ensures
        forall|i: int| 0 <= i < deps.len() ==> m.contains_key(#[trigger] deps[i]),
    decreases deps.len(),
{
    if deps.len() > 0 {
        lemma_substitute_all_ok_deps(
            spec_substitute_choice(t, deps[0], m[deps[0]].value),
            deps.subrange(1, deps.len() as int),
            m,
        );
        assert forall|i: int| 0 <= i < deps.len() implies m.contains_key(#[trigger] deps[i]) by {
            if i > 0 {
                assert(deps.subrange(1, deps.len() as int)[i - 1] == deps[i]);
            }
        }
    }
}

/// Substituting choices into a brace-free text returns it unchanged.
pub proof fn lemma_substitute_all_of_free(t: Seq<char>, deps: Seq<IdentV>, m: Map<IdentV, ChoiceV>)
    requires
        free_of(t, '{'),
        forall|i: int| 0 <= i < deps.len() ==> m.contains_key(#[trigger] deps[i]),
    ensures
        spec_substitute_all(t, deps, m) == Ok::<Seq<char>, IdentV>(t),
    decreases deps.len(),
{
    if deps.len() > 0 {
        lemma_substitute_choice_brace_free_identity(t, deps[0], m[deps[0]].value);
        assert forall|i: int|
            0 <= i < deps.subrange(1, deps.len() as int).len() implies m.contains_key(
            #[trigger] deps.subrange(1, deps.len() as int)[i],
        ) by {
            assert(deps.subrange(1, deps.len() as int)[i] == deps[i + 1]);
        }
        lemma_substitute_all_of_free(t, deps.subrange(1, deps.len() as int), m);
    }
}

/// Substitution is idempotent: once it has produced a command free of
/// placeholder delimiters, substituting the same choices again returns
/// that command unchanged.
pub proof fn lemma_substitute_all_idempotent(t: Seq<char>, deps: Seq<IdentV>, m: Map<IdentV, ChoiceV>)
    requires
        spec_substitute_all(t, deps, m) is Ok,
        free_of(spec_substitute_all(t, deps, m)->Ok_0, '{'),
    ensures
        spec_substitute_all(spec_substitute_all(t, deps, m)->Ok_0, deps, m)
            == spec_substitute_all(t, deps, m),
{
    lemma_substitute_all_ok_deps(t, deps, m);
    lemma_substitute_all_of_free(spec_substitute_all(t, deps, m)->Ok_0, deps, m);
}

/// When every dependency has a choice, partial substitution and full
/// substitution agree.
pub proof fn lemma_partial_agrees_with_all(t: Seq<char>, deps: Seq<IdentV>, m: Map<IdentV, ChoiceV>)
    requires
        forall|i: int| 0 <= i < deps.len() ==> m.contains_key(#[trigger] deps[i]),
    ensures
        spec_substitute_all(t, deps, m) == Ok::<Seq<char>, IdentV>(
            spec_substitute_partial(t, deps, m),
        ),
    decreases deps.len(),
{
    if deps.len() > 0 {
        assert forall|i: int|
            0 <= i < deps.subrange(1, deps.len() as int).len() implies m.contains_key(
            #[trigger] deps.subrange(1, deps.len() as int)[i],
        ) by {
            assert(deps.subrange(1, deps.len() as int)[i] == deps[i + 1]);
        }
        lemma_partial_agrees_with_all(
            spec_substitute_choice(t, deps[0], m[deps[0]].value),
            deps.subrange(1, deps.len() as int),
            m,
        );
    }
}

/// Name characters are neither spaces nor delimiters.
proof fn lemma_name_chars_plain(d: Seq<char>)
    requires
        valid_name(d),
    ensures
        free_of(d, ' '),
        free_of(d, '{'),
        free_of(d, '}'),
{
    assert forall|i: int| 0 <= i < d.len() implies d[i] != ' ' && d[i] != '{' && d[i] != '}' by {
        assert(crate::text::is_name_char(d[i]));
    }
}

/// A well-formed identifier: a valid name, and a valid namespace when it
/// has one.
pub open spec fn ident_wf(id: IdentV) -> bool {
    valid_name(id.name) && match id.namespace {
        Some(ns) => valid_name(ns),
        None => true,
    }
}

/// The namespaced text of a well-formed identifier is non-empty and free
/// of spaces and delimiters.
proof fn lemma_full_ident_text_plain(dep: IdentV)
    requires
        ident_wf(dep),
    ensures
        full_ident_text(dep).len() > 0,
        free_of(full_ident_text(dep), ' '),
        free_of(full_ident_text(dep), '{'),
        free_of(full_ident_text(dep), '}'),
{
    let ns = match dep.namespace {
        Some(ns) => ns,
        None => Seq::<char>::empty(),
    };
    let full = full_ident_text(dep);
    if dep.namespace is Some {
        lemma_name_chars_plain(ns);
    }
    lemma_name_chars_plain(dep.name);
    assert forall|i: int| 0 <= i < full.len() implies full[i] != ' ' && full[i] != '{' && full[i]
        != '}' by {
        if i < ns.len() {
            assert(full[i] == ns[i]);
        } else if i < ns.len() + 2 {
            assert(full[i] == ':');
        } else {
            assert(full[i] == dep.name[i - ns.len() - 2]);
        }
    }
}

/// Substituting a choice for an identifier removes its placeholders in
/// both forms at once: when every delimiter of the template lies inside a
/// placeholder for the identifier — `{{ name }}` or
/// `{{ namespace::name }}` — and the value introduces none, the
/// substituted template is free of placeholder delimiters.
pub proof fn lemma_substitute_removes_placeholders(t: Seq<char>, dep: IdentV, v: Seq<char>)
    requires
        ident_wf(dep),
        brace_free(v),
        crate::templates::delims_confined2_from(t, 0, dep.name, full_ident_text(dep), '{', '}'),
    ensures
        brace_free(spec_substitute_choice(t, dep, v)),
{
    let d1 = dep.name;
    let d2 = full_ident_text(dep);
    lemma_name_chars_plain(d1);
    lemma_full_ident_text_plain(dep);
    assert(d2.len() == (match dep.namespace {
        Some(ns) => ns,
        None => Seq::<char>::empty(),
    }).len() + 2 + d1.len());
    assert(d1 != d2);
    crate::templates::lemma_replace_keeps_other_confined(t, 0, d1, d2, v, '{', '}');
    crate::templates::lemma_replace_confined_free(
        replace_all(t, d1, v, '{', '}'),
        0,
        d2,
        v,
        '{',
        '}',
    );
}

/// A record that carries a command template.
pub trait Command {
    spec fn command_spec(&self) -> Seq<char>;

    fn command(&self) -> (r: &str)
        ensures
            r@ == self.command_spec(),
    ;
}

/// A record whose command names dependencies whose resolved choices must be
/// substituted before the command runs.
pub trait Dependencies: Command {
    spec fn dependencies_spec(&self) -> Seq<IdentV>;

    fn dependencies(&self) -> (r: Vec<Identifier>)
        ensures
            views_of(r@) == self.dependencies_spec(),
    ;

    /// Substitute a choice for every dependency; fail on the first one that
    /// has no choice.
    fn substitute_for_choices(&self, choices: &ChoiceMap) -> (r: Result<String, ErrorsResolver>)
        ensures
            r is Ok ==> spec_substitute_all(self.command_spec(), self.dependencies_spec(), choices@)
                is Ok && r->Ok_0@ == spec_substitute_all(
                self.command_spec(),
                self.dependencies_spec(),
                choices@,
            )->Ok_0,
            r is Err ==> spec_substitute_all(
                self.command_spec(),
                self.dependencies_spec(),
                choices@,
            ) is Err && (r->Err_0 matches ErrorsResolver::NoChoiceWasAvailable(id) && id@
                == spec_substitute_all(
                self.command_spec(),
                self.dependencies_spec(),
                choices@,
            )->Err_0),
    {
        let cmd = self.command();
        let deps = self.dependencies();
        substitute_all(cmd, &deps, choices)
    }

    /// Substitute a choice for every dependency that has one.
    fn substitute_for_choices_partial(&self, choices: &ChoiceMap) -> (r: String)
        ensures
            r@ == spec_substitute_partial(
                self.command_spec(),
                self.dependencies_spec(),
                choices@,
            ),
    {
        let cmd = self.command();
        let deps = self.dependencies();
        substitute_partial(cmd, &deps, choices)
    }
}

impl Command for ShellCommand<String> {
    open spec fn command_spec(&self) -> Seq<char> {
        self@
    }

    fn command(&self) -> (r: &str) {
        self.value().as_str()
    }
}

/// A bare shell command declares no dependencies: substitution leaves it
/// unchanged.
impl Dependencies for ShellCommand<String> {
    open spec fn dependencies_spec(&self) -> Seq<IdentV> {
        Seq::empty()
    }

    fn dependencies(&self) -> (r: Vec<Identifier>) {
        let r: Vec<Identifier> = Vec::new();
        proof {
            assert(views_of(r@) =~= Seq::<IdentV>::empty());
        }
        r
    }
}

/// The ordered identifiers of the variables one execution must resolve:
/// a variable never precedes one of its dependencies' dependents.
#[derive(Debug)]
pub struct ExecutionSequence {
    inner: Vec<Identifier>,
}

impl View for ExecutionSequence {
    type V = Seq<IdentV>;

    closed spec fn view(&self) -> Seq<IdentV> {
        views_of(self.inner@)
    }
}

impl ExecutionSequence {
    pub fn new(inner: Vec<Identifier>) -> (r: ExecutionSequence)
        ensures
            r@ == views_of(inner@),
    {
        ExecutionSequence { inner }
    }

    /// Owned copies of the identifiers, in order.
    pub fn identifiers(&self) -> (r: Vec<Identifier>)
        ensures
            views_of(r@) == self@,
    {
        let mut rep: Vec<Identifier> = Vec::new();
        let n = self.inner.len();
        let mut i: usize = 0;
        while i < n
            invariant
                i <= n,
                n == self.inner@.len(),
                rep@.len() == i,
                forall|j: int| 0 <= j < i ==> rep@[j]@ == self.inner@[j]@,
            decreases n - i,
        {
            rep.push(self.inner[i].duplicate());
            i += 1;
        }
        proof {
            assert(views_of(rep@) =~= views_of(self.inner@));
        }
        rep
    }

    pub fn as_slice(&self) -> (r: &[Identifier])
        ensures
            views_of(r@) == self@,
    {
        self.inner.as_slice()
    }
}

/// Why a resolution step failed. Messages that earlier carried formatted
/// causes carry their text as plain fields; rendering is the caller's.
#[derive(Debug)]
pub enum ErrorsResolver {
    NoChoiceWasAvailable(Identifier),
    DynamicResolveFailure(Identifier, String),
    DynamicResolveEmpty(Identifier, String, String),
    NoChoiceWasSelected(Identifier),
    NoInputWasProvided(Identifier, String),
    IdentifierSelectionEmpty,
    IdentifierSelectionInvalid(String),
}

/// The pluggable capability that produces a choice for a variable: by free
/// input, by running a shell command, or by picking among static choices.
pub trait Resolver {
    fn resolve_input(&self, var: Identifier, prompt: &str) -> Result<Choice, ErrorsResolver>;

    fn resolve_dynamic(&self, var: Identifier, cmd: ShellCommand<String>) -> Result<
        Choice,
        ErrorsResolver,
    >;

    fn resolve_static(&self, var: Identifier, choices: &Vec<Choice>) -> Result<
        Choice,
        ErrorsResolver,
    >;

    fn select_identifier(
        &self,
        identifiers: &Vec<Identifier>,
        descriptions: Option<&Vec<String>>,
        prompt: &str,
    ) -> Result<Identifier, ErrorsResolver>;
}

/// The choice scripted for a rendered command text, earlier entries
/// winning.
pub open spec fn dyn_lookup(entries: Seq<(String, Choice)>, q: Seq<char>) -> Option<ChoiceV>
    decreases entries.len(),
{
    if entries.len() == 0 {
        None
    } else if entries[0].0@ == q {
        Some(entries[0].1@)
    } else {
        dyn_lookup(entries.subrange(1, entries.len() as int), q)
    }
}

/// A scripted resolver: every answer is fixed in advance. Dynamic answers
/// are keyed by the rendered command text, the others by the variable.
#[derive(Debug)]
pub struct StaticResolver {
    dynamic_res: Vec<(String, Choice)>,
    static_res: ChoiceMap,
    identifier_to_select: Option<Identifier>,
}

impl StaticResolver {
    /// The scripted answers keyed by rendered command text.
    pub closed spec fn scripted_dynamic(&self) -> Seq<(String, Choice)> {
        self.dynamic_res@
    }

    /// The scripted answers keyed by variable.
    pub closed spec fn scripted_static(&self) -> Map<IdentV, ChoiceV> {
        self.static_res@
    }

    /// The scripted answer to identifier selection, if any.
    pub closed spec fn scripted_selection(&self) -> Option<IdentV> {
        match self.identifier_to_select {
            Some(id) => Some(id@),
            None => None,
        }
    }

    pub fn new(
        dynamic_res: Vec<(String, Choice)>,
        static_res: ChoiceMap,
        identifier_to_select: Option<Identifier>,
    ) -> (r: StaticResolver)
        ensures
            r.scripted_dynamic() == dynamic_res@,
            r.scripted_static() == static_res@,
            r.scripted_selection() == match identifier_to_select {
                Some(id) => Some(id@),
                None => None::<IdentV>,
            },
    {
        StaticResolver { dynamic_res, static_res, identifier_to_select }
    }
}

impl Resolver for StaticResolver {
    /// The scripted answer for `var`, the prompt ignored; without one,
    /// `NoChoiceWasAvailable(var)`.
    fn resolve_input(&self, var: Identifier, prompt: &str) -> (r: Result<Choice, ErrorsResolver>)
        ensures
            r is Ok <==> self.scripted_static().contains_key(var@),
            r is Ok ==> r->Ok_0@ == self.scripted_static()[var@],
            r is Err ==> (r->Err_0 matches ErrorsResolver::NoChoiceWasAvailable(id) && id@
                == var@),
    {
        match self.static_res.get(&var) {
            Some(c) => Ok(c.duplicate()),
            None => Err(ErrorsResolver::NoChoiceWasAvailable(var)),
        }
    }

    /// The answer scripted for the rendered command text, earlier entries
    /// winning; no subshell runs. Without one, `NoChoiceWasAvailable(var)`.
    fn resolve_dynamic(&self, var: Identifier, cmd: ShellCommand<String>) -> (r: Result<
        Choice,
        ErrorsResolver,
    >)
        ensures
            r is Ok <==> dyn_lookup(self.scripted_dynamic(), cmd@) is Some,
            r is Ok ==> r->Ok_0@ == dyn_lookup(self.scripted_dynamic(), cmd@)->Some_0,
            r is Err ==> (r->Err_0 matches ErrorsResolver::NoChoiceWasAvailable(id) && id@
                == var@),
    {
        let query = cmd.value();
        let n = self.dynamic_res.len();
        let mut i: usize = 0;
        proof {
            assert(self.dynamic_res@.subrange(0, n as int) =~= self.dynamic_res@);
        }
        while i < n
            invariant
                i <= n,
                n == self.dynamic_res@.len(),
                query@ == cmd@,
                dyn_lookup(self.dynamic_res@, cmd@) == dyn_lookup(
                    self.dynamic_res@.subrange(i as int, n as int),
                    cmd@,
                ),
            decreases n - i,
        {
            let ghost rest = self.dynamic_res@.subrange(i as int, n as int);
            proof {
                assert(rest[0] == self.dynamic_res@[i as int]);
                assert(rest.subrange(1, rest.len() as int) =~= self.dynamic_res@.subrange(
                    i + 1 as int,
                    n as int,
                ));
            }
            if self.dynamic_res[i].0 == *query {
                return Ok(self.dynamic_res[i].1.duplicate());
            }
            i += 1;
        }
        proof {
            assert(self.dynamic_res@.subrange(n as int, n as int) =~= Seq::<(
                String,
                Choice,
            )>::empty());
        }
        Err(ErrorsResolver::NoChoiceWasAvailable(var))
    }

    /// The scripted answer for `var`, the offered choices ignored; without
    /// one, `NoChoiceWasSelected(var)`.
    fn resolve_static(&self, var: Identifier, choices: &Vec<Choice>) -> (r: Result<
        Choice,
        ErrorsResolver,
    >)
        ensures
            r is Ok <==> self.scripted_static().contains_key(var@),
            r is Ok ==> r->Ok_0@ == self.scripted_static()[var@],
            r is Err ==> (r->Err_0 matches ErrorsResolver::NoChoiceWasSelected(id) && id@
                == var@),
    {
        match self.static_res.get(&var) {
            Some(c) => Ok(c.duplicate()),
            None => Err(ErrorsResolver::NoChoiceWasSelected(var)),
        }
    }

    /// The scripted identifier, the offered lists and prompt ignored;
    /// without one, `IdentifierSelectionEmpty`.
    fn select_identifier(
        &self,
        identifiers: &Vec<Identifier>,
        descriptions: Option<&Vec<String>>,
        prompt: &str,
    ) -> (r: Result<Identifier, ErrorsResolver>)
        ensures
            r is Ok <==> self.scripted_selection() is Some,
            r is Ok ==> r->Ok_0@ == self.scripted_selection()->Some_0,
            r is Err ==> (r->Err_0 matches ErrorsResolver::IdentifierSelectionEmpty),
    {
        match &self.identifier_to_select {
            Some(id) => Ok(id.duplicate()),
            None => Err(ErrorsResolver::IdentifierSelectionEmpty),
        }
    }
}

} // verus!
