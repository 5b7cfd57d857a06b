//! Scanning of alias references inside templates: `[[ ident ]]`, with one
//! optional space on each side of the identifier.

use vstd::prelude::*;
use crate::identifiers::{
    IdentV, Identifier, ident_from_chars, spec_parse_ident, with_default_namespace, copy_range,
};
use crate::text::{body_char, is_body_char};

verus! {

/// Length of the run of body characters (identifier characters and the
/// namespace separator) starting at `j`.
pub open spec fn body_run(s: Seq<char>, j: int) -> nat
    decreases s.len() - j,
{
    if j < 0 || j >= s.len() || !is_body_char(s[j]) {
        0
    } else {
        1 + body_run(s, j + 1)
    }
}

/// A reference match: its whole length and the identifier it names, before
/// any namespace fallback.
pub struct RefM {
    pub len: int,
    pub id: IdentV,
}

/// The alias reference starting at position `i` of `s`, if one starts
/// there: `[[`, an optional space, an identifier, an optional space, `]]`.
/// A bracketed body that is no well-formed identifier is not a reference.
pub open spec fn ref_at(s: Seq<char>, i: int) -> Option<RefM> {
    if 0 <= i && i + 2 <= s.len() && s[i] == '[' && s[i + 1] == '[' {
        let j = if i + 2 < s.len() && s[i + 2] == ' ' {
            i + 3
        } else {
            i + 2
        };
        let b = body_run(s, j);
        if b > 0 && spec_parse_ident(s.subrange(j, j + b)) is Some {
            let k = j + b;
            let m = if k < s.len() && s[k] == ' ' {
                k + 1
            } else {
                k
            };
            if m + 2 <= s.len() && s[m] == ']' && s[m + 1] == ']' {
                Some(RefM { len: m + 2 - i, id: spec_parse_ident(s.subrange(j, j + b))->Some_0 })
            } else {
                None
            }
        } else {
            None
        }
    } else {
        None
    }
}

/// The references of `s` from position `i` on, scanning left to right:
/// `(start, end, identifier)`, the namespace fallback `dns` applied to
/// identifiers without one.
pub open spec fn scan_refs_from(s: Seq<char>, i: int, dns: Option<Seq<char>>) -> Seq<
    (int, int, IdentV),
>
    decreases s.len() - i,
{
    if i < 0 || i >= s.len() {
        Seq::empty()
    } else {
        match ref_at(s, i) {
            Some(r) => seq![(i, i + r.len, with_default_namespace(r.id, dns))] + scan_refs_from(
                s,
                i + r.len,
                dns,
            ),
            None => scan_refs_from(s, i + 1, dns),
        }
    }
}

/// All references of `s`, in order.
pub open spec fn scan_refs(s: Seq<char>, dns: Option<Seq<char>>) -> Seq<(int, int, IdentV)> {
    scan_refs_from(s, 0, dns)
}

/// `s` from position `i` on, with every reference replaced by the template
/// its identifier names in `m`.
pub open spec fn expand_refs_from(
    s: Seq<char>,
    i: int,
    m: Map<IdentV, Seq<char>>,
    dns: Option<Seq<char>>,
) -> Seq<char>
    decreases s.len() - i,
{
    if i < 0 || i >= s.len() {
        Seq::empty()
    } else {
        match ref_at(s, i) {
            Some(r) => m[with_default_namespace(r.id, dns)] + expand_refs_from(s, i + r.len, m, dns),
            None => seq![s[i]] + expand_refs_from(s, i + 1, m, dns),
        }
    }
}

/// `s` with every reference replaced from `m`.
pub open spec fn expand_refs(s: Seq<char>, m: Map<IdentV, Seq<char>>, dns: Option<Seq<char>>) -> Seq<
    char,
> {
    expand_refs_from(s, 0, m, dns)
}

/// Every character of a body run is a body character.
pub proof fn lemma_body_run_chars(s: Seq<char>, j: int)
    ensures
        forall|m: int| j <= m < j + body_run(s, j) ==> is_body_char(#[trigger] s[m]),
    decreases s.len() - j,
{
    if 0 <= j && j < s.len() && is_body_char(s[j]) {
        lemma_body_run_chars(s, j + 1);
    }
}

/// Shape of a reference: it opens with two `[`, closes with two `]`, and
/// no bracket occurs strictly inside.
pub proof fn lemma_ref_interior(s: Seq<char>, i: int)
    requires
        ref_at(s, i) is Some,
    ensures
        ({
            let l = ref_at(s, i)->Some_0.len;
            &&& 5 <= l
            &&& i + l <= s.len()
            &&& s[i] == '[' && s[i + 1] == '['
            &&& s[i + l - 2] == ']' && s[i + l - 1] == ']'
            &&& forall|m: int| i + 2 <= m < i + l - 2 ==> s[m] != '[' && s[m] != ']'
        }),
{
    let j = if i + 2 < s.len() && s[i + 2] == ' ' {
        i + 3
    } else {
        i + 2
    };
    lemma_body_run_chars(s, j);
    let l = ref_at(s, i)->Some_0.len;
    assert forall|m: int| i + 2 <= m < i + l - 2 implies s[m] != '[' && s[m] != ']' by {
        if j <= m < j + body_run(s, j) {
            assert(is_body_char(s[m]));
        }
    }
}

/// No reference starts strictly inside a reference.
pub proof fn lemma_no_ref_strictly_inside(s: Seq<char>, i: int, k: int)
    requires
        ref_at(s, i) is Some,
        i < k < i + ref_at(s, i)->Some_0.len,
    ensures
        ref_at(s, k) is None,
{
    lemma_ref_interior(s, i);
    let l = ref_at(s, i)->Some_0.len;
    if ref_at(s, k) is Some {
        assert(s[k] == '[' && s[k + 1] == '[');
        assert(k == i + 1);
        assert(s[i + 2] != '[');
    }
}

/// The reference starting at `k` covers position `j`.
pub open spec fn ref_covers(s: Seq<char>, k: int, j: int) -> bool {
    match ref_at(s, k) {
        Some(r) => k <= j < k + r.len,
        None => false,
    }
}

/// From position `i` on, every bracket of `s` lies inside a reference
/// that starts at or after `i`.
pub open spec fn brackets_confined_from(s: Seq<char>, i: int) -> bool {
    forall|j: int| #![trigger s[j]]
        i <= j < s.len() && (s[j] == '[' || s[j] == ']') ==> exists|k: int|
            i <= k && #[trigger] ref_covers(s, k, j)
}

/// Every bracket of `s` lies inside a reference.
pub open spec fn brackets_confined(s: Seq<char>) -> bool {
    brackets_confined_from(s, 0)
}

/// A template in which no reference starts anywhere expands to itself.
pub proof fn lemma_expand_identity(
    s: Seq<char>,
    i: int,
    m: Map<IdentV, Seq<char>>,
    dns: Option<Seq<char>>,
)
    requires
        0 <= i <= s.len(),
        forall|k: int| 0 <= k < s.len() ==> #[trigger] ref_at(s, k) is None,
    ensures
        expand_refs_from(s, i, m, dns) == s.subrange(i, s.len() as int),
    decreases s.len() - i,
{
    if i == s.len() {
        assert(expand_refs_from(s, i, m, dns) =~= s.subrange(i, s.len() as int));
    } else {
        lemma_expand_identity(s, i + 1, m, dns);
        assert(expand_refs_from(s, i, m, dns) =~= s.subrange(i, s.len() as int));
    }
}

/// A text without opening brackets holds no reference.
pub proof fn lemma_scan_refs_empty_of_free(s: Seq<char>, i: int, dns: Option<Seq<char>>)
    requires
        0 <= i <= s.len(),
        crate::text::free_of(s, '['),
    ensures
        scan_refs_from(s, i, dns) == Seq::<(int, int, IdentV)>::empty(),
    decreases s.len() - i,
{
    if i < s.len() {
        assert(s[i] != '[');
        lemma_scan_refs_empty_of_free(s, i + 1, dns);
    }
}

/// The heart of the expansion law: when every bracket of the template
/// lies inside a reference, every reference resolves, and every resolved
/// template is bracket-free, the expanded template is bracket-free.
pub proof fn lemma_expand_confined_free(
    s: Seq<char>,
    i: int,
    m: Map<IdentV, Seq<char>>,
    dns: Option<Seq<char>>,
)
    requires
        0 <= i <= s.len(),
        brackets_confined_from(s, i),
        forall|k: IdentV| #[trigger] m.contains_key(k) ==> crate::text::free_of(m[k], '[')
            && crate::text::free_of(m[k], ']'),
        forall|idx: int| 0 <= idx < scan_refs_from(s, i, dns).len() ==> m.contains_key(
            #[trigger] scan_refs_from(s, i, dns)[idx].2,
        ),
    ensures
        crate::text::free_of(expand_refs_from(s, i, m, dns), '['),
        crate::text::free_of(expand_refs_from(s, i, m, dns), ']'),
    decreases s.len() - i,
{
    if i == s.len() {
    } else {
        match ref_at(s, i) {
            Some(r) => {
                lemma_ref_interior(s, i);
                let l = r.len;
                let k0 = with_default_namespace(r.id, dns);
                assert(scan_refs_from(s, i, dns)[0].2 == k0);
                assert(m.contains_key(k0));
                assert(brackets_confined_from(s, i + l)) by {
                    assert forall|j: int|
                        i + l <= j < s.len() && (s[j] == '[' || s[j] == ']') implies exists|
                        k: int,
                    | i + l <= k && #[trigger] ref_covers(s, k, j) by {
                        let kk = choose|kk: int| i <= kk && #[trigger] ref_covers(s, kk, j);
                        if kk < i + l {
                            if i < kk {
                                lemma_no_ref_strictly_inside(s, i, kk);
                            }
                            assert(kk == i);
                            assert(j < i + l);
                        }
                        assert(ref_covers(s, kk, j));
                    }
                }
                assert forall|idx: int|
                    0 <= idx < scan_refs_from(s, i + l, dns).len() implies m.contains_key(
                    #[trigger] scan_refs_from(s, i + l, dns)[idx].2,
                ) by {
                    assert(scan_refs_from(s, i, dns)[idx + 1].2 == scan_refs_from(
                        s,
                        i + l,
                        dns,
                    )[idx].2);
                }
                lemma_expand_confined_free(s, i + l, m, dns);
                crate::templates::lemma_free_concat(
                    m[k0],
                    expand_refs_from(s, i + l, m, dns),
                    '[',
                );
                crate::templates::lemma_free_concat(
                    m[k0],
                    expand_refs_from(s, i + l, m, dns),
                    ']',
                );
            },
            None => {
                assert(s[i] != '[' && s[i] != ']') by {
                    if s[i] == '[' || s[i] == ']' {
                        let kk = choose|kk: int| i <= kk && #[trigger] ref_covers(s, kk, i);
                        assert(kk == i);
                    }
                }
                assert(brackets_confined_from(s, i + 1)) by {
                    assert forall|j: int|
                        i + 1 <= j < s.len() && (s[j] == '[' || s[j] == ']') implies exists|
                        k: int,
                    | i + 1 <= k && #[trigger] ref_covers(s, k, j) by {
                        let kk = choose|kk: int| i <= kk && #[trigger] ref_covers(s, kk, j);
                        assert(kk != i);
                        assert(ref_covers(s, kk, j));
                    }
                }
                assert forall|idx: int|
                    0 <= idx < scan_refs_from(s, i + 1, dns).len() implies m.contains_key(
                    #[trigger] scan_refs_from(s, i + 1, dns)[idx].2,
                ) by {
                    assert(scan_refs_from(s, i, dns) == scan_refs_from(s, i + 1, dns));
                    assert(scan_refs_from(s, i, dns)[idx].2 == scan_refs_from(s, i + 1, dns)[idx].2);
                }
                lemma_expand_confined_free(s, i + 1, m, dns);
                crate::templates::lemma_free_concat(
                    seq![s[i]],
                    expand_refs_from(s, i + 1, m, dns),
                    '[',
                );
                crate::templates::lemma_free_concat(
                    seq![s[i]],
                    expand_refs_from(s, i + 1, m, dns),
                    ']',
                );
            },
        }
    }
}

/// Expansion reads the map only at the identifiers the references name:
/// two maps that agree there expand a template alike.
pub proof fn lemma_expand_agree(
    s: Seq<char>,
    i: int,
    m1: Map<IdentV, Seq<char>>,
    m2: Map<IdentV, Seq<char>>,
    dns: Option<Seq<char>>,
)
    requires
        forall|idx: int| 0 <= idx < scan_refs_from(s, i, dns).len() ==> {
            let k = #[trigger] scan_refs_from(s, i, dns)[idx].2;
            m1.contains_key(k) && m2.contains_key(k) && m1[k] == m2[k]
        },
    ensures
        expand_refs_from(s, i, m1, dns) == expand_refs_from(s, i, m2, dns),
    decreases s.len() - i,
{
    if i < 0 || i >= s.len() {
    } else {
        match ref_at(s, i) {
            Some(r) => {
                let head = (i, i + r.len, with_default_namespace(r.id, dns));
                let k0 = head.2;
                assert(scan_refs_from(s, i, dns) == seq![head] + scan_refs_from(s, i + r.len, dns));
                assert(scan_refs_from(s, i, dns)[0].2 == k0);
                assert(m1.contains_key(k0) && m2.contains_key(k0) && m1[k0] == m2[k0]);
                assert forall|idx: int| 0 <= idx < scan_refs_from(s, i + r.len, dns).len() implies {
                    let k = #[trigger] scan_refs_from(s, i + r.len, dns)[idx].2;
                    m1.contains_key(k) && m2.contains_key(k) && m1[k] == m2[k]
                } by {
                    assert(scan_refs_from(s, i, dns)[idx + 1].2 == scan_refs_from(
                        s,
                        i + r.len,
                        dns,
                    )[idx].2);
                }
                lemma_expand_agree(s, i + r.len, m1, m2, dns);
            },
            None => {
                assert(scan_refs_from(s, i, dns) == scan_refs_from(s, i + 1, dns));
                assert forall|idx: int| 0 <= idx < scan_refs_from(s, i + 1, dns).len() implies {
                    let k = #[trigger] scan_refs_from(s, i + 1, dns)[idx].2;
                    m1.contains_key(k) && m2.contains_key(k) && m1[k] == m2[k]
                } by {
                    assert(scan_refs_from(s, i, dns)[idx].2 == scan_refs_from(s, i + 1, dns)[idx].2);
                }
                lemma_expand_agree(s, i + 1, m1, m2, dns);
            },
        }
    }
}

/// Exec counterpart of `ref_at`: the length of the reference starting at
/// `i` and the identifier it names, before any fallback.
pub fn try_ref_at(s: &Vec<char>, i: usize) -> (r: Option<(usize, Identifier)>)
    requires
        i < s@.len(),
    ensures
        r is Some ==> ref_at(s@, i as int) is Some
            && ref_at(s@, i as int)->Some_0.len == r->Some_0.0 as int
            && ref_at(s@, i as int)->Some_0.id == r->Some_0.1@,
        r is None ==> ref_at(s@, i as int) is None,
{
    let n = s.len();
    if !(n - i >= 2 && s[i] == '[' && s[i + 1] == '[') {
        return None;
    }
    let j = if i + 2 < n && s[i + 2] == ' ' {
        i + 3
    } else {
        i + 2
    };
    // maximal run of body characters from j
    let mut k = j;
    while k < n && body_char(s[k])
        invariant
            j <= k <= n,
            n == s@.len(),
            forall|q: int| j <= q < k ==> is_body_char(s@[q]),
            body_run(s@, j as int) == body_run(s@, k as int) + k - j,
        decreases n - k,
    {
        k += 1;
    }
    let b = k - j;
    if b == 0 {
        return None;
    }
    let mut body: Vec<char> = Vec::new();
    copy_range(s, j, k, &mut body);
    let id = match ident_from_chars(&body) {
        Some(id) => id,
        None => {
            return None;
        },
    };
    let m = if k < n && s[k] == ' ' {
        k + 1
    } else {
        k
    };
    if n - m >= 2 && s[m] == ']' && s[m + 1] == ']' {
        Some((m + 2 - i, id))
    } else {
        None
    }
}

} // verus!
