//! The registry of aliases: it validates that every alias reference names
//! a present alias and that the reference graph is acyclic, and expands
//! every template eagerly at construction.

use vstd::prelude::*;
use crate::aliases::{Alias, AliasV, alias_ident};
use crate::dependencies::ErrorsResolver;
use crate::identifiers::{IdentV, Identifier, apply_default};
use crate::references::{expand_refs, expand_refs_from, scan_refs, scan_refs_from, try_ref_at};
use crate::text::{chars_of, string_of};

verus! {

/// The record each identifier names, later records winning.
pub open spec fn arec(s: Seq<Alias>) -> Map<IdentV, AliasV>
    decreases s.len(),
{
    if s.len() == 0 {
        Map::empty()
    } else {
        arec(s.drop_last()).insert(alias_ident(s.last()@), s.last()@)
    }
}

/// The template each identifier names.
pub open spec fn templates_of(m: Map<IdentV, AliasV>) -> Map<IdentV, Seq<char>> {
    Map::new(|k: IdentV| m.contains_key(k), |k: IdentV| m[k].alias)
}

/// Construction failures of the registry, and selection failures of its
/// callers.
#[derive(Debug)]
pub enum ErrorsAliasesRepository {
    MissingDependencies(Identifier, Identifier),
    CycleDetected(Vec<Identifier>),
    AliasSelectionFailure(ErrorsResolver),
    AliasInvalidSelection(Identifier),
}

/// The registry. After construction every stored template is fully
/// expanded: substituting the stored templates into any original template
/// reproduces the stored one.
#[derive(Debug)]
pub struct AliasesRepository {
    aliases: Vec<Alias>,
}

/// The record `id` names in `aliases`, later records winning.
pub fn find_alias<'a>(aliases: &'a Vec<Alias>, id: &Identifier) -> (r: Option<&'a Alias>)
    ensures
        r is Some <==> arec(aliases@).contains_key(id@),
        r is Some ==> r->Some_0@ == arec(aliases@)[id@],
{
    let mut j = aliases.len();
    proof {
        assert(aliases@.take(j as int) =~= aliases@);
    }
    while j > 0
        invariant
            j <= aliases@.len(),
            arec(aliases@).contains_key(id@) == arec(aliases@.take(j as int)).contains_key(id@),
            arec(aliases@).contains_key(id@) ==> arec(aliases@)[id@] == arec(
                aliases@.take(j as int),
            )[id@],
        decreases j,
    {
        j = j - 1;
        proof {
            assert(aliases@.take(j + 1 as int).drop_last() =~= aliases@.take(j as int));
            assert(aliases@.take(j + 1 as int).last() == aliases@[j as int]);
        }
        let candidate = &aliases[j];
        let cid = candidate.identifier();
        if cid.is_same(id) {
            return Some(candidate);
        }
    }
    proof {
        assert(aliases@.take(0) =~= Seq::<Alias>::empty());
    }
    None
}

impl AliasesRepository {
    /// The references of `alias`'s template, in order: the character range
    /// of each, and the identifier it names, the alias's own namespace
    /// serving as fallback.
    pub fn parse(alias: &Alias) -> (r: Vec<(usize, usize, Identifier)>)
        ensures
            r@.len() == scan_refs(alias@.alias, alias@.namespace).len(),
            forall|idx: int| 0 <= idx < r@.len() ==> {
                let e = #[trigger] r@[idx];
                let g = scan_refs(alias@.alias, alias@.namespace)[idx];
                e.0 as int == g.0 && e.1 as int == g.1 && e.2@ == g.2
            },
    {
        let s = chars_of(alias.alias());
        let ghost dns = alias@.namespace;
        let n = s.len();
        let mut out: Vec<(usize, usize, Identifier)> = Vec::new();
        let mut i: usize = 0;
        let ghost whole = scan_refs_from(s@, 0, dns);
        while i < n
            invariant
                i <= n,
                n == s@.len(),
                whole == scan_refs(alias@.alias, alias@.namespace),
                s@ == alias@.alias,
                dns == alias@.namespace,
                out@.len() <= whole.len(),
                whole == out_views(out@) + scan_refs_from(s@, i as int, dns),
            decreases n - i,
        {
            match try_ref_at(&s, i) {
                Some((l, raw)) => {
                    let id = apply_default(
                        raw,
                        match &alias.namespace {
                            Some(ns) => Some(ns),
                            None => None,
                        },
                    );
                    let ghost before = out@;
                    out.push((i, i + l, id));
                    proof {
                        assert(out@.drop_last() =~= before);
                        assert(out_views(out@) =~= out_views(before).push(
                            (i as int, i + l as int, out@.last().2@),
                        ));
                        assert(out_views(before).push((i as int, i + l as int, out@.last().2@))
                            + scan_refs_from(s@, i + l as int, dns) =~= out_views(before) + (seq![
                            (i as int, i + l as int, out@.last().2@),
                        ] + scan_refs_from(s@, i + l as int, dns)));
                    }
                    i = i + l;
                },
                None => {
                    i = i + 1;
                },
            }
        }
        proof {
            assert(out_views(out@) + scan_refs_from(s@, i as int, dns) =~= out_views(out@));
        }
        out
    }
}

/// The views of parsed references.
pub open spec fn out_views(r: Seq<(usize, usize, Identifier)>) -> Seq<(int, int, IdentV)> {
    r.map_values(|e: (usize, usize, Identifier)| (e.0 as int, e.1 as int, e.2@))
}

/// No two records carry the same identifier.
pub open spec fn distinct_idents(s: Seq<Alias>) -> bool {
    forall|i: int, j: int| 0 <= i < j < s.len() ==> alias_ident(s[i]@) != alias_ident(s[j]@)
}

/// Membership in the record map is membership in the sequence.
pub proof fn lemma_arec_contains(s: Seq<Alias>, k: IdentV)
    ensures
        arec(s).contains_key(k) <==> exists|i: int|
            0 <= i < s.len() && alias_ident(#[trigger] s[i]@) == k,
    decreases s.len(),
{
    if s.len() > 0 {
        lemma_arec_contains(s.drop_last(), k);
        if arec(s).contains_key(k) && alias_ident(s.last()@) != k {
            let i = choose|i: int|
                0 <= i < s.drop_last().len() && alias_ident(#[trigger] s.drop_last()[i]@) == k;
            assert(alias_ident(s[i]@) == k);
        }
        if exists|i: int| 0 <= i < s.len() && alias_ident(#[trigger] s[i]@) == k {
            let i = choose|i: int| 0 <= i < s.len() && alias_ident(#[trigger] s[i]@) == k;
            if i < s.len() - 1 {
                assert(alias_ident(s.drop_last()[i]@) == k);
            }
        }
    }
}

/// With distinct identifiers, the record map returns each record.
pub proof fn lemma_arec_index(s: Seq<Alias>, i: int)
    requires
        distinct_idents(s),
        0 <= i < s.len(),
    ensures
        arec(s).contains_key(alias_ident(s[i]@)),
        arec(s)[alias_ident(s[i]@)] == s[i]@,
    decreases s.len(),
{
    lemma_arec_contains(s, alias_ident(s[i]@));
    if i < s.len() - 1 {
        assert(distinct_idents(s.drop_last()));
        assert(s.drop_last()[i] == s[i]);
        lemma_arec_index(s.drop_last(), i);
        assert(alias_ident(s.last()@) != alias_ident(s[i]@));
    }
}

/// The record map is finite; with distinct identifiers its size is the
/// sequence's length.
pub proof fn lemma_arec_len(s: Seq<Alias>)
    ensures
        arec(s).dom().finite(),
        arec(s).dom().len() <= s.len(),
        distinct_idents(s) ==> arec(s).dom().len() == s.len(),
    decreases s.len(),
{
    if s.len() == 0 {
        assert(arec(s).dom() =~= Set::<IdentV>::empty());
    } else {
        lemma_arec_len(s.drop_last());
        assert(distinct_idents(s) ==> distinct_idents(s.drop_last()));
        assert(arec(s).dom() =~= arec(s.drop_last()).dom().insert(alias_ident(s.last()@)));
        if distinct_idents(s) {
            lemma_arec_contains(s.drop_last(), alias_ident(s.last()@));
            assert(forall|i: int|
                0 <= i < s.drop_last().len() ==> alias_ident(#[trigger] s.drop_last()[i]@)
                    != alias_ident(s.last()@));
            assert(!arec(s.drop_last()).dom().contains(alias_ident(s.last()@)));
        }
    }
}

/// Every reference of every record resolves inside the map.
pub open spec fn all_refs_present(m: Map<IdentV, AliasV>) -> bool {
    forall|k: IdentV, idx: int|
        m.contains_key(k) && 0 <= idx < scan_refs(m[k].alias, m[k].namespace).len()
            ==> m.contains_key(#[trigger] scan_refs(m[k].alias, m[k].namespace)[idx].2)
}

/// The record of `a` references the record of `b`.
pub open spec fn ref_edge(m: Map<IdentV, AliasV>, a: IdentV, b: IdentV) -> bool {
    m.contains_key(a) && exists|idx: int|
        0 <= idx < scan_refs(m[a].alias, m[a].namespace).len() && #[trigger] scan_refs(
            m[a].alias,
            m[a].namespace,
        )[idx].2 == b
}

/// A closed, non-trivial walk along reference edges.
pub open spec fn is_ref_cycle(m: Map<IdentV, AliasV>, p: Seq<IdentV>) -> bool {
    &&& p.len() >= 2
    &&& p[0] == p[p.len() - 1]
    &&& forall|i: int| 0 <= i < p.len() - 1 ==> ref_edge(m, #[trigger] p[i], p[i + 1])
}

/// The reference graph has no cycle.
pub open spec fn acyclic(m: Map<IdentV, AliasV>) -> bool {
    forall|p: Seq<IdentV>| !is_ref_cycle(m, p)
}

/// The position of the record `k` names in a sequence with distinct
/// identifiers.
pub open spec fn index_of_key(s: Seq<Alias>, k: IdentV) -> int {
    choose|i: int| 0 <= i < s.len() && alias_ident(s[i]@) == k
}

pub proof fn lemma_index_of_key(s: Seq<Alias>, k: IdentV)
    requires
        distinct_idents(s),
        arec(s).contains_key(k),
    ensures
        0 <= index_of_key(s, k) < s.len(),
        alias_ident(s[index_of_key(s, k)]@) == k,
{
    lemma_arec_contains(s, k);
    let i = choose|i: int| 0 <= i < s.len() && alias_ident(#[trigger] s[i]@) == k;
    assert(0 <= i < s.len() && alias_ident(s[i]@) == k);
}

/// A processing order that places every record after the records its
/// references name.
pub open spec fn topo_order(s: Seq<Alias>, m: Map<IdentV, AliasV>) -> bool {
    forall|i: int, ridx: int|
        #![trigger scan_refs(m[alias_ident(s[i]@)].alias, m[alias_ident(s[i]@)].namespace)[ridx]]
        0 <= i < s.len() && 0 <= ridx < scan_refs(
            m[alias_ident(s[i]@)].alias,
            m[alias_ident(s[i]@)].namespace,
        ).len() ==> arec(s.take(i)).contains_key(
            scan_refs(m[alias_ident(s[i]@)].alias, m[alias_ident(s[i]@)].namespace)[ridx].2,
        )
}

/// Along a reference edge, the target stands strictly earlier in a
/// topological processing order.
proof fn lemma_edge_decreases(s: Seq<Alias>, m: Map<IdentV, AliasV>, a: IdentV, b: IdentV)
    requires
        distinct_idents(s),
        forall|k: IdentV| #[trigger] m.contains_key(k) <==> arec(s).contains_key(k),
        topo_order(s, m),
        ref_edge(m, a, b),
    ensures
        m.contains_key(b),
        index_of_key(s, b) < index_of_key(s, a),
{
    lemma_index_of_key(s, a);
    let ia = index_of_key(s, a);
    let ridx = choose|ridx: int|
        0 <= ridx < scan_refs(m[a].alias, m[a].namespace).len() && #[trigger] scan_refs(
            m[a].alias,
            m[a].namespace,
        )[ridx].2 == b;
    assert(arec(s.take(ia)).contains_key(b));
    lemma_arec_contains(s.take(ia), b);
    let j = choose|j: int| 0 <= j < s.take(ia).len() && alias_ident(#[trigger] s.take(ia)[j]@) == b;
    assert(alias_ident(s[j]@) == b);
    lemma_arec_contains(s, b);
    assert(arec(s).contains_key(b));
    lemma_index_of_key(s, b);
    let ib = index_of_key(s, b);
    if ib != j {
        assert(alias_ident(s[ib]@) == alias_ident(s[j]@));
        assert(false);
    }
}

/// Walking a cycle down a topological order descends without end.
proof fn lemma_cycle_descent(
    s: Seq<Alias>,
    m: Map<IdentV, AliasV>,
    p: Seq<IdentV>,
    t: int,
)
    requires
        distinct_idents(s),
        forall|k: IdentV| #[trigger] m.contains_key(k) <==> arec(s).contains_key(k),
        topo_order(s, m),
        is_ref_cycle(m, p),
        0 <= t < p.len(),
    ensures
        m.contains_key(p[t]),
        index_of_key(s, p[t]) <= index_of_key(s, p[0]) - t,
    decreases t,
{
    if t == 0 {
        assert(ref_edge(m, p[0], p[1]));
    } else {
        lemma_cycle_descent(s, m, p, t - 1);
        assert(ref_edge(m, p[t - 1], p[t]));
        lemma_edge_decreases(s, m, p[t - 1], p[t]);
    }
}

/// A topological processing order rules out reference cycles.
pub proof fn lemma_topo_implies_acyclic(s: Seq<Alias>, m: Map<IdentV, AliasV>)
    requires
        distinct_idents(s),
        forall|k: IdentV| #[trigger] m.contains_key(k) <==> arec(s).contains_key(k),
        topo_order(s, m),
    ensures
        acyclic(m),
{
    assert forall|p: Seq<IdentV>| !is_ref_cycle(m, p) by {
        if is_ref_cycle(m, p) {
            lemma_cycle_descent(s, m, p, p.len() - 1);
            assert(p[p.len() - 1] == p[0]);
        }
    }
}

/// Every record's template keeps its brackets inside references.
pub open spec fn all_brackets_confined(m: Map<IdentV, AliasV>) -> bool {
    forall|k: IdentV| #[trigger] m.contains_key(k) ==> crate::references::brackets_confined(
        m[k].alias,
    )
}

/// `miss` names the first unresolvable reference of the scan: some
/// reference names it and its target is absent, and every earlier
/// reference resolves in `m`.
pub open spec fn first_unresolvable(
    refs: Seq<(int, int, IdentV)>,
    m: Map<IdentV, AliasV>,
    miss: IdentV,
) -> bool {
    exists|idx: int| #![trigger refs[idx]]
        0 <= idx < refs.len() && refs[idx].2 == miss && !m.contains_key(miss) && (forall|q: int|
            0 <= q < idx ==> m.contains_key(#[trigger] refs[q].2))
}

/// The first reference of `alias`'s template whose target is not in
/// `aliases`, in left-to-right scan order, if any.
pub fn first_missing(alias: &Alias, aliases: &Vec<Alias>) -> (r: Option<Identifier>)
    ensures
        r is None ==> forall|idx: int|
            0 <= idx < scan_refs(alias@.alias, alias@.namespace).len() ==> arec(
                aliases@,
            ).contains_key(#[trigger] scan_refs(alias@.alias, alias@.namespace)[idx].2),
        r is Some ==> !arec(aliases@).contains_key(r->Some_0@) && first_unresolvable(
            scan_refs(alias@.alias, alias@.namespace),
            arec(aliases@),
            r->Some_0@,
        ),
{
    let s = chars_of(alias.alias());
    let ghost dns = alias@.namespace;
    let n = s.len();
    let mut i: usize = 0;
    let ghost whole = scan_refs_from(s@, 0, dns);
    let ghost mut seen: int = 0;
    while i < n
        invariant
            i <= n,
            n == s@.len(),
            s@ == alias@.alias,
            dns == alias@.namespace,
            whole == scan_refs(alias@.alias, alias@.namespace),
            0 <= seen <= whole.len(),
            whole == whole.subrange(0, seen) + scan_refs_from(s@, i as int, dns),
            forall|idx: int| 0 <= idx < seen ==> arec(aliases@).contains_key(
                #[trigger] whole[idx].2,
            ),
        decreases n - i,
    {
        match try_ref_at(&s, i) {
            Some((l, raw)) => {
                let id = apply_default(
                    raw,
                    match &alias.namespace {
                        Some(ns) => Some(ns),
                        None => None,
                    },
                );
                proof {
                    assert(scan_refs_from(s@, i as int, dns)[0].2 == id@);
                    assert(whole[seen].2 == id@);
                }
                match find_alias(aliases, &id) {
                    Some(_) => {
                        proof {
                            assert(whole.subrange(0, seen + 1) + scan_refs_from(
                                s@,
                                i + l as int,
                                dns,
                            ) =~= whole.subrange(0, seen) + scan_refs_from(s@, i as int, dns));
                            seen = seen + 1;
                        }
                        i = i + l;
                    },
                    None => {
                        proof {
                            assert(0 <= seen < whole.len() && whole[seen].2 == id@);
                        }
                        return Some(id);
                    },
                }
            },
            None => {
                i = i + 1;
            },
        }
    }
    proof {
        assert(whole =~= whole.subrange(0, seen));
    }
    None
}

impl AliasesRepository {
    /// `alias` with every reference of its template replaced by the
    /// template of the alias it names in `aliases`; the alias's namespace
    /// serves as fallback for references without one. Succeeds exactly when
    /// every reference resolves.
    pub fn substitute_alias_defs(alias: &Alias, aliases: &Vec<Alias>) -> (r: Result<
        Alias,
        ErrorsAliasesRepository,
    >)
        ensures
            r is Ok ==> r->Ok_0@ == (AliasV {
                alias: expand_refs(alias@.alias, templates_of(arec(aliases@)), alias@.namespace),
                ..alias@
            }) && forall|idx: int|
                0 <= idx < scan_refs(alias@.alias, alias@.namespace).len() ==> arec(
                    aliases@,
                ).contains_key(#[trigger] scan_refs(alias@.alias, alias@.namespace)[idx].2),
            r is Err ==> (r->Err_0 matches ErrorsAliasesRepository::MissingDependencies(o, miss)
                && o@ == alias_ident(alias@) && !arec(aliases@).contains_key(miss@)
                && first_unresolvable(
                scan_refs(alias@.alias, alias@.namespace),
                arec(aliases@),
                miss@,
            )),
    {
        let s = chars_of(alias.alias());
        let ghost dns = alias@.namespace;
        let ghost m = templates_of(arec(aliases@));
        let n = s.len();
        let mut out: Vec<char> = Vec::new();
        let mut i: usize = 0;
        let ghost whole = scan_refs_from(s@, 0, dns);
        let ghost mut seen: int = 0;
        proof {
            assert(Seq::<char>::empty() + expand_refs_from(s@, 0, m, dns) =~= expand_refs_from(
                s@,
                0,
                m,
                dns,
            ));
        }
        while i < n
            invariant
                i <= n,
                n == s@.len(),
                s@ == alias@.alias,
                dns == alias@.namespace,
                m == templates_of(arec(aliases@)),
                whole == scan_refs(alias@.alias, alias@.namespace),
                0 <= seen <= whole.len(),
                whole == whole.subrange(0, seen) + scan_refs_from(s@, i as int, dns),
                forall|idx: int| 0 <= idx < seen ==> arec(aliases@).contains_key(
                    #[trigger] whole[idx].2,
                ),
                expand_refs(s@, m, dns) == out@ + expand_refs_from(s@, i as int, m, dns),
            decreases n - i,
        {
            let ghost before = out@;
            match try_ref_at(&s, i) {
                Some((l, raw)) => {
                    let id = apply_default(
                        raw,
                        match &alias.namespace {
                            Some(ns) => Some(ns),
                            None => None,
                        },
                    );
                    proof {
                        assert(scan_refs_from(s@, i as int, dns)[0].2 == id@);
                        assert(whole[seen].2 == id@);
                    }
                    match find_alias(aliases, &id) {
                        Some(target) => {
                            let tchars = chars_of(target.alias());
                            crate::templates::append_chars(&mut out, &tchars);
                            proof {
                                assert(tchars@ == m[id@]);
                                assert(before + (m[id@] + expand_refs_from(s@, i + l as int, m, dns))
                                    =~= (before + m[id@]) + expand_refs_from(
                                    s@,
                                    i + l as int,
                                    m,
                                    dns,
                                ));
                                assert(whole.subrange(0, seen + 1) + scan_refs_from(
                                    s@,
                                    i + l as int,
                                    dns,
                                ) =~= whole.subrange(0, seen) + scan_refs_from(s@, i as int, dns));
                                seen = seen + 1;
                            }
                            i = i + l;
                        },
                        None => {
                            proof {
                                assert(0 <= seen < whole.len() && whole[seen].2 == id@);
                            }
                            return Err(
                                ErrorsAliasesRepository::MissingDependencies(
                                    alias.identifier(),
                                    id,
                                ),
                            );
                        },
                    }
                },
                None => {
                    out.push(s[i]);
                    proof {
                        assert(before + (seq![s@[i as int]] + expand_refs_from(
                            s@,
                            i + 1 as int,
                            m,
                            dns,
                        )) =~= before.push(s@[i as int]) + expand_refs_from(
                            s@,
                            i + 1 as int,
                            m,
                            dns,
                        ));
                    }
                    i = i + 1;
                },
            }
        }
        proof {
            assert(whole =~= whole.subrange(0, seen));
            assert(out@ + expand_refs_from(s@, i as int, m, dns) =~= out@);
        }
        let mut expanded = alias.duplicate();
        expanded.update(string_of(&out));
        Ok(expanded)
    }
}

/// Later records win: keep, for each identifier, its last record.
fn dedup_keep_last(input: &Vec<Alias>) -> (r: Vec<Alias>)
    ensures
        arec(r@) == arec(input@),
        distinct_idents(r@),
{
    let n = input.len();
    let mut base: Vec<Alias> = Vec::new();
    let mut t = n;
    proof {
        assert(input@.take(n as int) =~= input@);
    }
    while t > 0
        invariant
            t <= n,
            n == input@.len(),
            distinct_idents(base@),
            forall|k: IdentV| arec(input@).contains_key(k) <==> (arec(
                input@.take(t as int),
            ).contains_key(k) || arec(base@).contains_key(k)),
            forall|k: IdentV| #[trigger] arec(base@).contains_key(k) ==> arec(
                input@,
            ).contains_key(k) && arec(input@)[k] == arec(base@)[k],
            forall|k: IdentV|
                !arec(base@).contains_key(k) && #[trigger] arec(
                    input@.take(t as int),
                ).contains_key(k) ==> arec(input@)[k] == arec(input@.take(t as int))[k],
        decreases t,
    {
        t = t - 1;
        proof {
            assert(input@.take(t + 1 as int).drop_last() =~= input@.take(t as int));
            assert(input@.take(t + 1 as int).last() == input@[t as int]);
        }
        let aid = input[t].identifier();
        match find_alias(&base, &aid) {
            Some(_) => {},
            None => {
                let ghost prev = base@;
                let copy = input[t].duplicate();
                base.push(copy);
                proof {
                    assert(base@.drop_last() =~= prev);
                    assert(alias_ident(base@.last()@) == aid@);
                    assert forall|i: int, j: int| 0 <= i < j < base@.len() implies alias_ident(
                        base@[i]@,
                    ) != alias_ident(base@[j]@) by {
                        if j == base@.len() - 1 {
                            lemma_arec_contains(prev, alias_ident(prev[i]@));
                        }
                    }
                }
            },
        }
    }
    proof {
        assert(input@.take(0) =~= Seq::<Alias>::empty());
        assert(arec(base@) =~= arec(input@));
    }
    base
}

/// An alias of `base` that is not yet in `done` but whose references all
/// are, if any.
fn find_ready(base: &Vec<Alias>, done: &Vec<Alias>) -> (r: Option<usize>)
    ensures
        r is Some ==> ({
            let a = base@[r->Some_0 as int]@;
            &&& r->Some_0 < base@.len()
            &&& !arec(done@).contains_key(alias_ident(a))
            &&& forall|idx: int|
                0 <= idx < scan_refs(a.alias, a.namespace).len() ==> arec(done@).contains_key(
                    #[trigger] scan_refs(a.alias, a.namespace)[idx].2,
                )
        }),
        r is None ==> forall|j: int| 0 <= j < base@.len() ==> arec(done@).contains_key(
            alias_ident(#[trigger] base@[j]@),
        ) || exists|idx: int|
            0 <= idx < scan_refs(base@[j]@.alias, base@[j]@.namespace).len() && !arec(
                done@,
            ).contains_key(#[trigger] scan_refs(base@[j]@.alias, base@[j]@.namespace)[idx].2),
{
    let n = base.len();
    let mut j: usize = 0;
    while j < n
        invariant
            j <= n,
            n == base@.len(),
            forall|q: int| 0 <= q < j ==> arec(done@).contains_key(
                alias_ident(#[trigger] base@[q]@),
            ) || exists|idx: int|
                0 <= idx < scan_refs(base@[q]@.alias, base@[q]@.namespace).len() && !arec(
                    done@,
                ).contains_key(#[trigger] scan_refs(base@[q]@.alias, base@[q]@.namespace)[idx].2),
        decreases n - j,
    {
        let aid = base[j].identifier();
        match find_alias(done, &aid) {
            Some(_) => {},
            None => {
                match first_missing(&base[j], done) {
                    None => {
                        return Some(j);
                    },
                    Some(_) => {},
                }
            },
        }
        j += 1;
    }
    None
}

/// Bound a walk of pairwise-distinct identifiers that all name records.
proof fn lemma_path_bound(path: Seq<IdentV>, base: Seq<Alias>)
    requires
        path.no_duplicates(),
        forall|i: int| 0 <= i < path.len() ==> arec(base).contains_key(#[trigger] path[i]),
    ensures
        path.len() <= base.len(),
{
    broadcast use vstd::seq_lib::seq_to_set_is_finite;

    path.unique_seq_to_set();
    lemma_arec_len(base);
    assert forall|x: IdentV| path.to_set().contains(x) implies arec(base).dom().contains(x) by {
        let i = choose|i: int| 0 <= i < path.len() && path[i] == x;
        assert(arec(base).contains_key(path[i]));
    }
    assert(path.to_set().subset_of(arec(base).dom()));
    vstd::set_lib::lemma_len_subset(path.to_set(), arec(base).dom());
}

/// When every remaining alias waits on a remaining alias, follow those
/// edges until one repeats: a cycle of the reference graph.
fn extract_cycle(base: &Vec<Alias>, done: &Vec<Alias>, start: Identifier) -> (r: Vec<Identifier>)
    requires
        distinct_idents(base@),
        all_refs_present(arec(base@)),
        arec(base@).contains_key(start@),
        !arec(done@).contains_key(start@),
        forall|k: IdentV|
            #[trigger] arec(base@).contains_key(k) && !arec(done@).contains_key(k) ==> exists|
                idx: int,
            |
                0 <= idx < scan_refs(arec(base@)[k].alias, arec(base@)[k].namespace).len() && !arec(
                    done@,
                ).contains_key(
                    #[trigger] scan_refs(arec(base@)[k].alias, arec(base@)[k].namespace)[idx].2,
                ),
    ensures
        is_ref_cycle(arec(base@), crate::dependencies::views_of(r@)),
        forall|i: int, j: int|
            0 <= i < j < crate::dependencies::views_of(r@).len() - 1
                ==> crate::dependencies::views_of(r@)[i] != crate::dependencies::views_of(r@)[j],
{
    let ghost bm = arec(base@);
    let mut path: Vec<Identifier> = Vec::new();
    path.push(start);
    loop
        invariant
            distinct_idents(base@),
            all_refs_present(bm),
            bm == arec(base@),
            1 <= path@.len() <= base@.len(),
            forall|i: int| 0 <= i < path@.len() ==> bm.contains_key(#[trigger] path@[i]@)
                && !arec(done@).contains_key(path@[i]@),
            forall|i: int, j: int| 0 <= i < j < path@.len() ==> path@[i]@ != path@[j]@,
            forall|i: int| 0 <= i < path@.len() - 1 ==> ref_edge(
                bm,
                #[trigger] path@[i]@,
                path@[i + 1]@,
            ),
            forall|k: IdentV|
                #[trigger] arec(base@).contains_key(k) && !arec(done@).contains_key(k) ==> exists|
                    idx: int,
                |
                    0 <= idx < scan_refs(bm[k].alias, bm[k].namespace).len() && !arec(
                        done@,
                    ).contains_key(#[trigger] scan_refs(bm[k].alias, bm[k].namespace)[idx].2),
        decreases base@.len() + 1 - path@.len(),
    {
        let last_idx = path.len() - 1;
        let record = match find_alias(base, &path[last_idx]) {
            Some(a) => a,
            None => {
                proof {
                    assert(false);
                }
                return path;
            },
        };
        let next = match first_missing(record, done) {
            Some(x) => x,
            None => {
                proof {
                    assert(bm.contains_key(path@[last_idx as int]@));
                    assert(false);
                }
                return path;
            },
        };
        proof {
            let cur = path@[last_idx as int]@;
            assert(record@ == bm[cur]);
            assert(ref_edge(bm, cur, next@));
            // the missing reference names a record: it is itself remaining
            let widx = choose|idx: int|
                0 <= idx < scan_refs(bm[cur].alias, bm[cur].namespace).len() && #[trigger] scan_refs(
                    bm[cur].alias,
                    bm[cur].namespace,
                )[idx].2 == next@;
            assert(bm.contains_key(scan_refs(bm[cur].alias, bm[cur].namespace)[widx].2));
        }
        // does the next identifier already stand in the walk?
        let plen = path.len();
        let mut p: usize = 0;
        while p < plen
            invariant
                p <= plen,
                plen == path@.len(),
                1 <= plen,
                bm == arec(base@),
                forall|q: int| 0 <= q < p ==> path@[q]@ != next@,
                forall|i: int, j: int| 0 <= i < j < plen ==> path@[i]@ != path@[j]@,
                forall|i: int| 0 <= i < plen - 1 ==> ref_edge(
                    bm,
                    #[trigger] path@[i]@,
                    path@[i + 1]@,
                ),
                ref_edge(bm, path@[plen - 1]@, next@),
            decreases plen - p,
        {
            if path[p].is_same(&next) {
                // the walk closes here: emit the cycle
                let mut cyc: Vec<Identifier> = Vec::new();
                let mut q = p;
                while q < plen
                    invariant
                        p <= q <= plen,
                        plen == path@.len(),
                        1 <= plen,
                        p < plen,
                        bm == arec(base@),
                        path@[p as int]@ == next@,
                        cyc@.len() == q - p,
                        forall|w: int| 0 <= w < cyc@.len() ==> cyc@[w]@ == path@[p + w]@,
                        forall|i: int, j: int| 0 <= i < j < plen ==> path@[i]@ != path@[j]@,
                        forall|i: int| 0 <= i < plen - 1 ==> ref_edge(
                            bm,
                            #[trigger] path@[i]@,
                            path@[i + 1]@,
                        ),
                        ref_edge(bm, path@[plen - 1]@, next@),
                    decreases plen - q,
                {
                    cyc.push(path[q].duplicate());
                    q += 1;
                }
                cyc.push(next);
                proof {
                    let vs = crate::dependencies::views_of(cyc@);
                    assert(vs.len() == plen - p + 1);
                    assert(vs[0] == path@[p as int]@);
                    assert(vs[vs.len() - 1] == next@);
                    assert forall|i: int, j: int| 0 <= i < j < vs.len() - 1 implies vs[i]
                        != vs[j] by {
                        assert(vs[i] == path@[p + i]@ && vs[j] == path@[p + j]@);
                    }
                    assert forall|w: int| 0 <= w < vs.len() - 1 implies ref_edge(
                        bm,
                        #[trigger] vs[w],
                        vs[w + 1],
                    ) by {
                        assert(vs[w] == path@[p + w]@);
                        if w < vs.len() - 2 {
                            assert(vs[w + 1] == path@[p + w + 1]@);
                            assert(ref_edge(bm, path@[p + w]@, path@[p + w + 1]@));
                        } else {
                            assert(p + w == plen - 1);
                            assert(vs[w + 1] == next@);
                            assert(ref_edge(bm, path@[plen - 1]@, next@));
                        }
                    }
                }
                return cyc;
            }
            p += 1;
        }
        // no repeat: the walk grows, bounded by the number of records
        let ghost prev = path@;
        path.push(next);
        proof {
            assert(path@.drop_last() =~= prev);
            let vs = crate::dependencies::views_of(path@);
            assert forall|i: int, j: int| 0 <= i < j < path@.len() implies path@[i]@
                != path@[j]@ by {
                if j == path@.len() - 1 {
                    assert(path@[i]@ == prev[i]@);
                }
            }
            assert(vs.no_duplicates());
            assert forall|i: int| 0 <= i < vs.len() implies arec(base@).contains_key(
                #[trigger] vs[i],
            ) by {
                assert(vs[i] == path@[i]@);
            }
            lemma_path_bound(vs, base@);
            assert(vs.len() == path@.len());
        }
    }
}

impl View for AliasesRepository {
    type V = Map<IdentV, AliasV>;

    closed spec fn view(&self) -> Map<IdentV, AliasV> {
        arec(self.aliases@)
    }
}

impl AliasesRepository {
    /// The stored records carry pairwise distinct identifiers.
    #[verifier::type_invariant]
    spec fn wf(&self) -> bool {
        distinct_idents(self.aliases@)
    }
}

impl AliasesRepository {
    /// Build the registry: keep the last record of each identifier, check
    /// that every reference resolves, and expand every template in an
    /// order that respects references. A reference to an absent alias or a
    /// reference cycle fails construction; with neither, it succeeds.
    pub fn new(aliases: Vec<Alias>) -> (r: Result<AliasesRepository, ErrorsAliasesRepository>)
        ensures
            r is Ok ==> ({
                let out = r->Ok_0@;
                let inm = arec(aliases@);
                &&& out.dom() == inm.dom()
                &&& forall|k: IdentV| #[trigger] out.contains_key(k) ==> out[k].name
                    == inm[k].name && out[k].namespace == inm[k].namespace && out[k].desc
                    == inm[k].desc
                &&& forall|k: IdentV| #[trigger] out.contains_key(k) ==> out[k].alias
                    == expand_refs(inm[k].alias, templates_of(out), inm[k].namespace)
                &&& all_brackets_confined(inm) ==> forall|k: IdentV|
                    #[trigger] out.contains_key(k) ==> crate::text::free_of(out[k].alias, '[')
                        && crate::text::free_of(out[k].alias, ']') && scan_refs(
                        out[k].alias,
                        out[k].namespace,
                    ) == Seq::<(int, int, IdentV)>::empty()
                &&& all_refs_present(inm)
                &&& acyclic(inm)
            }),
            r is Err ==> match r->Err_0 {
                ErrorsAliasesRepository::MissingDependencies(o, miss) => arec(
                    aliases@,
                ).contains_key(o@) && !arec(aliases@).contains_key(miss@) && first_unresolvable(
                    scan_refs(arec(aliases@)[o@].alias, arec(aliases@)[o@].namespace),
                    arec(aliases@),
                    miss@,
                ),
                ErrorsAliasesRepository::CycleDetected(p) => is_ref_cycle(
                    arec(aliases@),
                    crate::dependencies::views_of(p@),
                ) && (forall|i: int, j: int|
                    0 <= i < j < crate::dependencies::views_of(p@).len() - 1
                        ==> crate::dependencies::views_of(p@)[i] != crate::dependencies::views_of(
                        p@,
                    )[j]),
                _ => false,
            },
            all_refs_present(arec(aliases@)) && acyclic(arec(aliases@)) ==> r is Ok,
            !all_refs_present(arec(aliases@)) ==> r is Err && (r->Err_0 matches
                ErrorsAliasesRepository::MissingDependencies(_, _)),
            all_refs_present(arec(aliases@)) && !acyclic(arec(aliases@)) ==> r is Err && (
            r->Err_0 matches ErrorsAliasesRepository::CycleDetected(_)),
    {
        let ghost inm = arec(aliases@);
        let base = dedup_keep_last(&aliases);
        let nb = base.len();
        // every reference must name a record
        let mut j: usize = 0;
        while j < nb
            invariant
                j <= nb,
                nb == base@.len(),
                inm == arec(aliases@),
                arec(base@) == inm,
                distinct_idents(base@),
                forall|q: int, idx: int|
                    0 <= q < j && 0 <= idx < scan_refs(base@[q]@.alias, base@[q]@.namespace).len()
                        ==> inm.contains_key(
                        #[trigger] scan_refs(base@[q]@.alias, base@[q]@.namespace)[idx].2,
                    ),
            decreases nb - j,
        {
            match first_missing(&base[j], &base) {
                Some(miss) => {
                    let owner = base[j].identifier();
                    proof {
                        lemma_arec_index(base@, j as int);
                        let o = alias_ident(base@[j as int]@);
                        let refs = scan_refs(inm[o].alias, inm[o].namespace);
                        assert(refs == scan_refs(base@[j as int]@.alias, base@[j as int]@.namespace));
                        // a missing reference refutes full resolvability
                        if all_refs_present(inm) {
                            let widx = choose|widx: int| #![trigger refs[widx]]
                                0 <= widx < refs.len() && refs[widx].2 == miss@ && !inm.contains_key(
                                    miss@,
                                ) && (forall|q: int|
                                    0 <= q < widx ==> inm.contains_key(#[trigger] refs[q].2));
                            assert(inm.contains_key(refs[widx].2));
                            assert(false);
                        }
                    }
                    return Err(ErrorsAliasesRepository::MissingDependencies(owner, miss));
                },
                None => {},
            }
            j += 1;
        }
        proof {
            assert(all_refs_present(inm)) by {
                assert forall|k: IdentV, idx: int|
                    inm.contains_key(k) && 0 <= idx < scan_refs(
                        inm[k].alias,
                        inm[k].namespace,
                    ).len() implies inm.contains_key(
                    #[trigger] scan_refs(inm[k].alias, inm[k].namespace)[idx].2,
                ) by {
                    lemma_arec_contains(base@, k);
                    let q = choose|q: int| 0 <= q < base@.len() && alias_ident(#[trigger] base@[q]@) == k;
                    lemma_arec_index(base@, q);
                }
            }
        }
        // expand in an order that respects references
        let mut done: Vec<Alias> = Vec::new();
        while done.len() < nb
            invariant
                nb == base@.len(),
                inm == arec(aliases@),
                arec(base@) == inm,
                distinct_idents(base@),
                distinct_idents(done@),
                all_refs_present(inm),
                done@.len() <= nb,
                forall|k: IdentV| #[trigger] arec(done@).contains_key(k) ==> inm.contains_key(k),
                forall|k: IdentV| #[trigger] arec(done@).contains_key(k) ==> arec(done@)[k].name
                    == inm[k].name && arec(done@)[k].namespace == inm[k].namespace && arec(
                    done@,
                )[k].desc == inm[k].desc,
                forall|k: IdentV, idx: int|
                    #![trigger arec(done@).contains_key(k), scan_refs(inm[k].alias, inm[k].namespace)[idx]]
                    arec(done@).contains_key(k) && 0 <= idx < scan_refs(
                        inm[k].alias,
                        inm[k].namespace,
                    ).len() ==> arec(done@).contains_key(
                        scan_refs(inm[k].alias, inm[k].namespace)[idx].2,
                    ),
                forall|k: IdentV| #[trigger] arec(done@).contains_key(k) ==> arec(done@)[k].alias
                    == expand_refs(inm[k].alias, templates_of(arec(done@)), inm[k].namespace),
                all_brackets_confined(inm) ==> forall|k: IdentV|
                    #[trigger] arec(done@).contains_key(k) ==> crate::text::free_of(
                        arec(done@)[k].alias,
                        '[',
                    ) && crate::text::free_of(arec(done@)[k].alias, ']'),
                topo_order(done@, inm),
            decreases nb - done.len(),
        {
            match find_ready(&base, &done) {
                Some(idx) => {
                    proof {
                        lemma_arec_index(base@, idx as int);
                    }
                    let expanded = match Self::substitute_alias_defs(&base[idx], &done) {
                        Ok(e) => e,
                        Err(e) => {
                            proof {
                                assert(false);
                            }
                            return Err(e);
                        },
                    };
                    let ghost prev = done@;
                    let ghost a = base@[idx as int]@;
                    let ghost k0 = alias_ident(a);
                    done.push(expanded);
                    proof {
                        assert(done@.drop_last() =~= prev);
                        assert(alias_ident(done@.last()@) == k0);
                        assert(arec(done@) == arec(prev).insert(k0, done@.last()@));
                        // distinctness of the processed records
                        assert forall|i: int, jj: int| 0 <= i < jj < done@.len() implies
                            alias_ident(done@[i]@) != alias_ident(done@[jj]@) by {
                            if jj == done@.len() - 1 {
                                lemma_arec_contains(prev, alias_ident(prev[i]@));
                            }
                        }
                        // the new record comes after everything it references
                        assert(topo_order(done@, inm)) by {
                            assert(done@.take(prev.len() as int) =~= prev);
                            assert forall|i: int, ridx: int|
                                0 <= i < done@.len() && 0 <= ridx < scan_refs(
                                    inm[alias_ident(done@[i]@)].alias,
                                    inm[alias_ident(done@[i]@)].namespace,
                                ).len() implies arec(done@.take(i)).contains_key(
                                #[trigger] scan_refs(
                                    inm[alias_ident(done@[i]@)].alias,
                                    inm[alias_ident(done@[i]@)].namespace,
                                )[ridx].2,
                            ) by {
                                if i < prev.len() {
                                    assert(done@[i] == prev[i]);
                                    assert(done@.take(i) =~= prev.take(i));
                                    assert(arec(prev.take(i)).contains_key(
                                        scan_refs(
                                            inm[alias_ident(prev[i]@)].alias,
                                            inm[alias_ident(prev[i]@)].namespace,
                                        )[ridx].2,
                                    ));
                                } else {
                                    assert(alias_ident(done@[i]@) == k0);
                                    assert(inm[k0].alias == a.alias && inm[k0].namespace
                                        == a.namespace);
                                    assert(arec(prev).contains_key(
                                        scan_refs(a.alias, a.namespace)[ridx].2,
                                    ));
                                }
                            }
                        }
                        if all_brackets_confined(inm) {
                            let tm = templates_of(arec(prev));
                            assert(inm.contains_key(k0));
                            assert(crate::references::brackets_confined(a.alias));
                            assert forall|kk: IdentV| #[trigger] tm.contains_key(kk) implies
                                crate::text::free_of(tm[kk], '[') && crate::text::free_of(
                                tm[kk],
                                ']',
                            ) by {
                                assert(arec(prev).contains_key(kk));
                            }
                            assert forall|idx: int|
                                0 <= idx < scan_refs_from(a.alias, 0, a.namespace).len() implies
                                tm.contains_key(
                                #[trigger] scan_refs_from(a.alias, 0, a.namespace)[idx].2,
                            ) by {
                                assert(scan_refs(a.alias, a.namespace)[idx].2 == scan_refs_from(
                                    a.alias,
                                    0,
                                    a.namespace,
                                )[idx].2);
                                assert(arec(prev).contains_key(
                                    scan_refs(a.alias, a.namespace)[idx].2,
                                ));
                            }
                            crate::references::lemma_expand_confined_free(
                                a.alias,
                                0,
                                tm,
                                a.namespace,
                            );
                            assert(crate::text::free_of(arec(done@)[k0].alias, '['));
                        }
                        // old expansions read only records that are unchanged
                        assert forall|k: IdentV| #[trigger] arec(done@).contains_key(k) implies
                            arec(done@)[k].alias == expand_refs(
                            inm[k].alias,
                            templates_of(arec(done@)),
                            inm[k].namespace,
                        ) by {
                            let refs = scan_refs(inm[k].alias, inm[k].namespace);
                            assert(refs == scan_refs_from(inm[k].alias, 0, inm[k].namespace));
                            if k == k0 {
                                assert(arec(done@)[k].alias == expand_refs(
                                    a.alias,
                                    templates_of(arec(prev)),
                                    a.namespace,
                                ));
                                assert(inm[k].alias == a.alias && inm[k].namespace == a.namespace);
                                assert forall|idx: int|
                                    0 <= idx < scan_refs_from(
                                        inm[k].alias,
                                        0,
                                        inm[k].namespace,
                                    ).len() implies {
                                    let kk = #[trigger] scan_refs_from(
                                        inm[k].alias,
                                        0,
                                        inm[k].namespace,
                                    )[idx].2;
                                    templates_of(arec(prev)).contains_key(kk) && templates_of(
                                        arec(done@),
                                    ).contains_key(kk) && templates_of(arec(prev))[kk]
                                        == templates_of(arec(done@))[kk]
                                } by {
                                    assert(scan_refs(a.alias, a.namespace)[idx].2 == scan_refs_from(
                                        inm[k].alias,
                                        0,
                                        inm[k].namespace,
                                    )[idx].2);
                                    assert(arec(prev).contains_key(
                                        scan_refs(a.alias, a.namespace)[idx].2,
                                    ));
                                }
                                crate::references::lemma_expand_agree(
                                    inm[k].alias,
                                    0,
                                    templates_of(arec(prev)),
                                    templates_of(arec(done@)),
                                    inm[k].namespace,
                                );
                            } else {
                                assert(arec(prev).contains_key(k));
                                assert(arec(done@)[k] == arec(prev)[k]);
                                assert forall|idx: int|
                                    0 <= idx < scan_refs_from(
                                        inm[k].alias,
                                        0,
                                        inm[k].namespace,
                                    ).len() implies {
                                    let kk = #[trigger] scan_refs_from(
                                        inm[k].alias,
                                        0,
                                        inm[k].namespace,
                                    )[idx].2;
                                    templates_of(arec(prev)).contains_key(kk) && templates_of(
                                        arec(done@),
                                    ).contains_key(kk) && templates_of(arec(prev))[kk]
                                        == templates_of(arec(done@))[kk]
                                } by {
                                    assert(refs[idx].2 == scan_refs_from(
                                        inm[k].alias,
                                        0,
                                        inm[k].namespace,
                                    )[idx].2);
                                    assert(arec(prev).contains_key(refs[idx].2));
                                }
                                crate::references::lemma_expand_agree(
                                    inm[k].alias,
                                    0,
                                    templates_of(arec(prev)),
                                    templates_of(arec(done@)),
                                    inm[k].namespace,
                                );
                            }
                        }
                    }
                },
                None => {
                    // nothing is ready: the remaining records wait on each
                    // other, and a walk along those edges must close
                    let mut start_idx: usize = 0;
                    let mut found = false;
                    let mut s: usize = 0;
                    while s < nb
                        invariant
                            s <= nb,
                            nb == base@.len(),
                            found ==> start_idx < nb && !arec(done@).contains_key(
                                alias_ident(base@[start_idx as int]@),
                            ),
                            !found ==> forall|q: int| 0 <= q < s ==> arec(done@).contains_key(
                                alias_ident(#[trigger] base@[q]@),
                            ),
                        decreases nb - s,
                    {
                        if !found {
                            let aid = base[s].identifier();
                            match find_alias(&done, &aid) {
                                Some(_) => {},
                                None => {
                                    start_idx = s;
                                    found = true;
                                },
                            }
                        }
                        s += 1;
                    }
                    if !found {
                        proof {
                            // every record is processed: the processed map
                            // covers the whole domain, so the loop guard
                            // could not have held
                            assert forall|k: IdentV| inm.contains_key(k) implies arec(
                                done@,
                            ).contains_key(k) by {
                                lemma_arec_contains(base@, k);
                                let q = choose|q: int|
                                    0 <= q < base@.len() && alias_ident(#[trigger] base@[q]@) == k;
                            }
                            lemma_arec_len(base@);
                            lemma_arec_len(done@);
                            assert(arec(done@).dom() =~= inm.dom());
                            assert(false);
                        }
                        return Err(ErrorsAliasesRepository::CycleDetected(Vec::new()));
                    }
                    let start = base[start_idx].identifier();
                    proof {
                        lemma_arec_index(base@, start_idx as int);
                        assert forall|k: IdentV|
                            #[trigger] arec(base@).contains_key(k) && !arec(
                                done@,
                            ).contains_key(k) implies exists|ridx: int|
                            0 <= ridx < scan_refs(arec(base@)[k].alias, arec(base@)[k].namespace).len()
                                && !arec(done@).contains_key(
                                #[trigger] scan_refs(
                                    arec(base@)[k].alias,
                                    arec(base@)[k].namespace,
                                )[ridx].2,
                            ) by {
                            lemma_arec_contains(base@, k);
                            let q = choose|q: int|
                                0 <= q < base@.len() && alias_ident(#[trigger] base@[q]@) == k;
                            lemma_arec_index(base@, q);
                        }
                    }
                    let cyc = extract_cycle(&base, &done, start);
                    return Err(ErrorsAliasesRepository::CycleDetected(cyc));
                },
            }
        }
        proof {
            // all processed: the maps have the same domain
            assert forall|k: IdentV| inm.contains_key(k) implies arec(done@).contains_key(k) by {
                lemma_arec_len(base@);
                lemma_arec_len(done@);
                if !arec(done@).contains_key(k) {
                    assert(arec(done@).dom().subset_of(inm.dom()));
                    vstd::set_lib::lemma_len_subset(arec(done@).dom(), inm.dom());
                    assert(arec(done@).dom().insert(k).subset_of(inm.dom()));
                    vstd::set_lib::lemma_len_subset(arec(done@).dom().insert(k), inm.dom());
                }
            }
            assert(arec(done@).dom() =~= inm.dom());
            assert(forall|k: IdentV| #[trigger] inm.contains_key(k) <==> arec(
                done@,
            ).contains_key(k));
            lemma_topo_implies_acyclic(done@, inm);
            if all_brackets_confined(inm) {
                assert forall|k: IdentV| #[trigger] arec(done@).contains_key(k) implies scan_refs(
                    arec(done@)[k].alias,
                    arec(done@)[k].namespace,
                ) == Seq::<(int, int, IdentV)>::empty() by {
                    crate::references::lemma_scan_refs_empty_of_free(
                        arec(done@)[k].alias,
                        0,
                        arec(done@)[k].namespace,
                    );
                }
            }
        }
        Ok(AliasesRepository { aliases: done })
    }

    /// Owned copies of the stored aliases: exactly one for every
    /// identifier of the registry, each equal to its stored record.
    pub fn aliases(&self) -> (r: Vec<Alias>)
        ensures
            r@.len() == self@.dom().len(),
            forall|i: int| 0 <= i < r@.len() ==> self@.contains_key(
                alias_ident(#[trigger] r@[i]@),
            ) && self@[alias_ident(r@[i]@)] == r@[i]@,
            forall|k: IdentV| #[trigger] self@.contains_key(k) ==> exists|i: int|
                0 <= i < r@.len() && alias_ident(#[trigger] r@[i]@) == k,
    {
        proof {
            use_type_invariant(&*self);
            lemma_arec_len(self.aliases@);
        }
        let mut rep: Vec<Alias> = Vec::new();
        let n = self.aliases.len();
        let mut i: usize = 0;
        while i < n
            invariant
                i <= n,
                n == self.aliases@.len(),
                distinct_idents(self.aliases@),
                rep@.len() == i,
                forall|q: int| 0 <= q < i ==> rep@[q]@ == self.aliases@[q]@,
            decreases n - i,
        {
            rep.push(self.aliases[i].duplicate());
            i += 1;
        }
        proof {
            assert forall|q: int| 0 <= q < rep@.len() implies self@.contains_key(
                alias_ident(#[trigger] rep@[q]@),
            ) && self@[alias_ident(rep@[q]@)] == rep@[q]@ by {
                lemma_arec_index(self.aliases@, q);
            }
            assert forall|k: IdentV| #[trigger] self@.contains_key(k) implies exists|q: int|
                0 <= q < rep@.len() && alias_ident(#[trigger] rep@[q]@) == k by {
                lemma_arec_contains(self.aliases@, k);
                let q = choose|q: int|
                    0 <= q < self.aliases@.len() && alias_ident(#[trigger] self.aliases@[q]@) == k;
                assert(alias_ident(rep@[q]@) == k);
            }
        }
        rep
    }

    /// The stored alias `id` names, or the selection error.
    pub fn get(&self, id: &Identifier) -> (r: Result<&Alias, ErrorsAliasesRepository>)
        ensures
            r is Ok <==> self@.contains_key(id@),
            r is Ok ==> r->Ok_0@ == self@[id@],
            r is Err ==> (r->Err_0 matches ErrorsAliasesRepository::AliasInvalidSelection(i) && i@
                == id@),
    {
        match find_alias(&self.aliases, id) {
            Some(a) => Ok(a),
            None => Err(ErrorsAliasesRepository::AliasInvalidSelection(id.duplicate())),
        }
    }

    /// The identifiers of the stored aliases: one for each key of the
    /// registry, and nothing else.
    pub fn identifiers(&self) -> (r: Vec<Identifier>)
        ensures
            r@.len() == self@.dom().len(),
            forall|i: int| 0 <= i < r@.len() ==> self@.contains_key(#[trigger] r@[i]@),
            forall|k: IdentV| #[trigger] self@.contains_key(k) ==> exists|i: int|
                0 <= i < r@.len() && r@[i]@ == k,
    {
        proof {
            use_type_invariant(&*self);
            lemma_arec_len(self.aliases@);
        }
        let mut rep: Vec<Identifier> = Vec::new();
        let n = self.aliases.len();
        let mut i: usize = 0;
        while i < n
            invariant
                i <= n,
                n == self.aliases@.len(),
                distinct_idents(self.aliases@),
                rep@.len() == i,
                forall|q: int| 0 <= q < i ==> rep@[q]@ == alias_ident(self.aliases@[q]@),
                forall|q: int| 0 <= q < rep@.len() ==> self@.contains_key(#[trigger] rep@[q]@),
            decreases n - i,
        {
            proof {
                lemma_arec_index(self.aliases@, i as int);
            }
            rep.push(self.aliases[i].identifier());
            i += 1;
        }
        proof {
            assert forall|k: IdentV| #[trigger] self@.contains_key(k) implies exists|q: int|
                0 <= q < rep@.len() && rep@[q]@ == k by {
                lemma_arec_contains(self.aliases@, k);
                let q = choose|q: int|
                    0 <= q < self.aliases@.len() && alias_ident(#[trigger] self.aliases@[q]@) == k;
                assert(rep@[q]@ == k);
            }
        }
        rep
    }

    /// The descriptions of the stored aliases, for selection menus: one
    /// for each stored alias, and nothing else.
    pub fn descriptions(&self) -> (r: Vec<String>)
        ensures
            r@.len() == self@.dom().len(),
            forall|k: IdentV| #[trigger] self@.contains_key(k) ==> exists|i: int|
                0 <= i < r@.len() && r@[i]@ == self@[k].desc,
    {
        proof {
            use_type_invariant(&*self);
            lemma_arec_len(self.aliases@);
        }
        let mut rep: Vec<String> = Vec::new();
        let n = self.aliases.len();
        let mut i: usize = 0;
        while i < n
            invariant
                i <= n,
                n == self.aliases@.len(),
                distinct_idents(self.aliases@),
                rep@.len() == i,
                forall|q: int| 0 <= q < i ==> rep@[q]@ == self.aliases@[q]@.desc,
            decreases n - i,
        {
            rep.push(self.aliases[i].desc().to_owned());
            i += 1;
        }
        proof {
            lemma_arec_len(self.aliases@);
            assert forall|k: IdentV| #[trigger] self@.contains_key(k) implies exists|q: int|
                0 <= q < rep@.len() && rep@[q]@ == self@[k].desc by {
                lemma_arec_contains(self.aliases@, k);
                let q = choose|q: int|
                    0 <= q < self.aliases@.len() && alias_ident(#[trigger] self.aliases@[q]@) == k;
                lemma_arec_index(self.aliases@, q);
                assert(rep@[q]@ == self@[k].desc);
            }
        }
        rep
    }
}

} // verus!
