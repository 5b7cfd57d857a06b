//! Placeholder scanning and substitution over command templates.
//!
//! A placeholder for an identifier text `d` is written `{{d}}`, with one
//! optional space on each side of `d`. Substitution replaces every
//! occurrence, scanning left to right.

use vstd::prelude::*;
use crate::text::free_of;

verus! {

/// Length of the placeholder for `d` delimited by `o`/`c` that starts at
/// position `i` of `s`, if one starts there: `o o [space] d [space] c c`.
pub open spec fn match_len(s: Seq<char>, i: int, d: Seq<char>, o: char, c: char) -> Option<int> {
    if 0 <= i && i + 4 + d.len() <= s.len() && s[i] == o && s[i + 1] == o {
        let j = if s[i + 2] == ' ' {
            i + 3
        } else {
            i + 2
        };
        if j + d.len() + 2 <= s.len() && s.subrange(j, j + d.len() as int) == d {
            let k = j + d.len();
            let m = if k < s.len() && s[k] == ' ' {
                k + 1
            } else {
                k
            };
            if m + 2 <= s.len() && s[m] == c && s[m + 1] == c {
                Some(m + 2 - i)
            } else {
                None
            }
        } else {
            None
        }
    } else {
        None
    }
}

/// `s` from position `i` on, with every placeholder for `d` replaced by `v`.
pub open spec fn replace_from(
    s: Seq<char>,
    i: int,
    d: Seq<char>,
    v: Seq<char>,
    o: char,
    c: char,
) -> Seq<char>
    decreases s.len() - i,
{
    if i < 0 || i >= s.len() {
        Seq::empty()
    } else {
        match match_len(s, i, d, o, c) {
            Some(l) => v + replace_from(s, i + l, d, v, o, c),
            None => seq![s[i]] + replace_from(s, i + 1, d, v, o, c),
        }
    }
}

/// `s` with every placeholder for `d` replaced by `v`.
pub open spec fn replace_all(s: Seq<char>, d: Seq<char>, v: Seq<char>, o: char, c: char) -> Seq<
    char,
> {
    replace_from(s, 0, d, v, o, c)
}

/// Exec counterpart of `match_len`.
pub fn try_match(s: &Vec<char>, i: usize, d: &Vec<char>, o: char, c: char) -> (r: Option<usize>)
    requires
        i < s@.len(),
    ensures
        r is Some ==> match_len(s@, i as int, d@, o, c) == Some(r->Some_0 as int),
        r is None ==> match_len(s@, i as int, d@, o, c) is None,
{
    let n = s.len();
    let avail = n - i;
    if avail < 4 || d.len() > avail - 4 || s[i] != o || s[i + 1] != o {
        return None;
    }
    let j = if s[i + 2] == ' ' {
        i + 3
    } else {
        i + 2
    };
    if d.len() + 2 > n - j {
        return None;
    }
    // compare s[j .. j + d.len()] with d
    let mut p: usize = 0;
    while p < d.len()
        invariant
            p <= d@.len(),
            n == s@.len(),
            i + 4 + d@.len() <= n,
            s@[i as int] == o,
            s@[i + 1] == o,
            j == if s@[i + 2] == ' ' {
                i + 3
            } else {
                i + 2
            },
            j + d@.len() + 2 <= n,
            forall|q: int| 0 <= q < p ==> s@[j + q] == d@[q],
        decreases d@.len() - p,
    {
        if s[j + p] != d[p] {
            proof {
                assert(s@.subrange(j as int, j + d@.len() as int)[p as int] == s@[j + p]);
                assert(s@.subrange(j as int, j + d@.len() as int) != d@);
            }
            return None;
        }
        p += 1;
    }
    proof {
        assert(s@.subrange(j as int, j + d@.len() as int) =~= d@);
    }
    let k = j + d.len();
    let m = if k < n && s[k] == ' ' {
        k + 1
    } else {
        k
    };
    if n - m >= 2 && s[m] == c && s[m + 1] == c {
        Some(m + 2 - i)
    } else {
        None
    }
}

/// Append the characters of `v` to `out`.
pub fn append_chars(out: &mut Vec<char>, v: &Vec<char>)
    ensures
        final(out)@ == old(out)@ + v@,
{
    let mut p: usize = 0;
    while p < v.len()
        invariant
            p <= v@.len(),
            out@ == old(out)@ + v@.subrange(0, p as int),
        decreases v@.len() - p,
    {
        out.push(v[p]);
        proof {
            assert(old(out)@ + v@.subrange(0, p + 1 as int) =~= (old(out)@ + v@.subrange(
                0,
                p as int,
            )).push(v@[p as int]));
        }
        p += 1;
    }
    proof {
        assert(old(out)@ + v@.subrange(0, v@.len() as int) =~= old(out)@ + v@);
    }
}

/// Replace every placeholder for `d` in `s` by `v`, scanning left to right.
pub fn replace_chars(s: &Vec<char>, d: &Vec<char>, v: &Vec<char>, o: char, c: char) -> (r: Vec<
    char,
>)
    ensures
        r@ == replace_all(s@, d@, v@, o, c),
{
    let n = s.len();
    let mut out: Vec<char> = Vec::new();
    let mut i: usize = 0;
    proof {
        assert(Seq::<char>::empty() + replace_from(s@, 0, d@, v@, o, c) =~= replace_from(
            s@,
            0,
            d@,
            v@,
            o,
            c,
        ));
    }
    while i < n
        invariant
            i <= n,
            n == s@.len(),
            replace_all(s@, d@, v@, o, c) == out@ + replace_from(s@, i as int, d@, v@, o, c),
        decreases n - i,
    {
        match try_match(s, i, d, o, c) {
            Some(l) => {
                let ghost before = out@;
                append_chars(&mut out, v);
                proof {
                    assert(before + (v@ + replace_from(s@, i + l, d@, v@, o, c)) =~= (before + v@)
                        + replace_from(s@, i + l as int, d@, v@, o, c));
                }
                i += l;
            },
            None => {
                let ghost before = out@;
                out.push(s[i]);
                proof {
                    assert(before + (seq![s@[i as int]] + replace_from(s@, i + 1, d@, v@, o, c))
                        =~= before.push(s@[i as int]) + replace_from(s@, i + 1 as int, d@, v@, o, c));
                }
                i += 1;
            },
        }
    }
    proof {
        assert(out@ + replace_from(s@, i as int, d@, v@, o, c) =~= out@);
    }
    out
}

/// The placeholder starting at `k` covers position `j`.
pub open spec fn match_covers(s: Seq<char>, k: int, j: int, d: Seq<char>, o: char, c: char) -> bool {
    match match_len(s, k, d, o, c) {
        Some(l) => k <= j < k + l,
        None => false,
    }
}

/// From position `i` on, every delimiter character of `s` lies inside a
/// placeholder for `d` that starts at or after `i`.
pub open spec fn delims_confined_from(s: Seq<char>, i: int, d: Seq<char>, o: char, c: char) -> bool {
    forall|j: int| #![trigger s[j]]
        i <= j < s.len() && (s[j] == o || s[j] == c) ==> exists|k: int|
            i <= k && #[trigger] match_covers(s, k, j, d, o, c)
}

/// Every delimiter character of `s` lies inside a placeholder for `d`.
pub open spec fn delims_confined(s: Seq<char>, d: Seq<char>, o: char, c: char) -> bool {
    delims_confined_from(s, 0, d, o, c)
}

/// Well-formedness of a pattern instance: the identifier text is non-empty
/// and free of spaces and delimiters, and the delimiters are distinct,
/// non-space characters.
pub open spec fn pattern_wf(d: Seq<char>, o: char, c: char) -> bool {
    &&& d.len() > 0
    &&& free_of(d, ' ')
    &&& free_of(d, o)
    &&& free_of(d, c)
    &&& o != c
    &&& o != ' '
    &&& c != ' '
}

/// Shape of a placeholder: it opens with two `o`, closes with two `c`, and
/// no delimiter occurs strictly inside.
pub proof fn lemma_match_interior(s: Seq<char>, i: int, d: Seq<char>, o: char, c: char)
    requires
        match_len(s, i, d, o, c) is Some,
        free_of(d, o),
        free_of(d, c),
        o != ' ',
        c != ' ',
    ensures
        ({
            let l = match_len(s, i, d, o, c)->Some_0;
            &&& 4 + d.len() <= l
            &&& i + l <= s.len()
            &&& s[i] == o && s[i + 1] == o
            &&& s[i + l - 2] == c && s[i + l - 1] == c
            &&& forall|m: int| i + 2 <= m < i + l - 2 ==> s[m] != o && s[m] != c
        }),
{
    let l = match_len(s, i, d, o, c)->Some_0;
    let j = if s[i + 2] == ' ' {
        i + 3
    } else {
        i + 2
    };
    assert forall|m: int| j <= m < j + d.len() implies s[m] != o && s[m] != c by {
        assert(s.subrange(j, j + d.len() as int)[m - j] == s[m]);
    }
    assert(forall|m: int| i + 2 <= m < i + l - 2 ==> s[m] != o && s[m] != c);
}

/// No placeholder for `d2` starts strictly inside a placeholder for `d`.
pub proof fn lemma_no_match_strictly_inside(
    s: Seq<char>,
    i: int,
    k: int,
    d: Seq<char>,
    d2: Seq<char>,
    o: char,
    c: char,
)
    requires
        match_len(s, i, d, o, c) is Some,
        i < k < i + match_len(s, i, d, o, c)->Some_0,
        free_of(d, o),
        free_of(d, c),
        o != c,
        o != ' ',
        c != ' ',
    ensures
        match_len(s, k, d2, o, c) is None,
{
    lemma_match_interior(s, i, d, o, c);
    let l = match_len(s, i, d, o, c)->Some_0;
    if match_len(s, k, d2, o, c) is Some {
        // the inner placeholder would open with two `o`
        assert(s[k] == o && s[k + 1] == o);
        // `o` occurs in the outer placeholder only at its first two positions
        assert(k == i + 1);
        assert(s[i + 2] != o);
    }
}

/// Placeholders for two distinct identifier texts made of non-space,
/// non-delimiter characters never start at the same position.
pub proof fn lemma_distinct_idents_exclusive(
    s: Seq<char>,
    k: int,
    d1: Seq<char>,
    d2: Seq<char>,
    o: char,
    c: char,
)
    requires
        d1 != d2,
        free_of(d1, ' '),
        free_of(d1, o),
        free_of(d1, c),
        free_of(d2, ' '),
        free_of(d2, o),
        free_of(d2, c),
        o != c,
        o != ' ',
        c != ' ',
        match_len(s, k, d2, o, c) is Some,
    ensures
        match_len(s, k, d1, o, c) is None,
{
    if match_len(s, k, d1, o, c) is Some {
        let j = if s[k + 2] == ' ' {
            k + 3
        } else {
            k + 2
        };
        assert(s.subrange(j, j + d1.len() as int) == d1);
        assert(s.subrange(j, j + d2.len() as int) == d2);
        assert forall|q: int| j <= q < j + d1.len() implies s[q] == d1[q - j] by {
            assert(s.subrange(j, j + d1.len() as int)[q - j] == s[q]);
        }
        assert forall|q: int| j <= q < j + d2.len() implies s[q] == d2[q - j] by {
            assert(s.subrange(j, j + d2.len() as int)[q - j] == s[q]);
        }
        if d1.len() == d2.len() {
            assert(d1 =~= d2);
        } else if d1.len() < d2.len() {
            // after d1 the text goes on with a character of d2, which can
            // be neither a space nor a closing delimiter
            let q = j + d1.len();
            assert(s[q] == d2[d1.len() as int]);
            assert(s[q] != ' ' && s[q] != c);
        } else {
            let q = j + d2.len();
            assert(s[q] == d1[d2.len() as int]);
            assert(s[q] != ' ' && s[q] != c);
        }
    }
}

/// A concatenation is free of `ch` when both parts are.
pub proof fn lemma_free_concat(a: Seq<char>, b: Seq<char>, ch: char)
    requires
        free_of(a, ch),
        free_of(b, ch),
    ensures
        free_of(a + b, ch),
{
    assert forall|i: int| 0 <= i < (a + b).len() implies (a + b)[i] != ch by {
        if i < a.len() {
            assert((a + b)[i] == a[i]);
        } else {
            assert((a + b)[i] == b[i - a.len()]);
        }
    }
}

/// When no placeholder for `d` starts at or after `i`, substitution from
/// `i` leaves the text unchanged.
pub proof fn lemma_replace_nomatch_identity(
    s: Seq<char>,
    i: int,
    d: Seq<char>,
    v: Seq<char>,
    o: char,
    c: char,
)
    requires
        0 <= i <= s.len(),
        forall|k: int| i <= k < s.len() ==> #[trigger] match_len(s, k, d, o, c) is None,
    ensures
        replace_from(s, i, d, v, o, c) == s.subrange(i, s.len() as int),
    decreases s.len() - i,
{
    if i == s.len() {
        assert(replace_from(s, i, d, v, o, c) =~= s.subrange(i, s.len() as int));
    } else {
        lemma_replace_nomatch_identity(s, i + 1, d, v, o, c);
        assert(replace_from(s, i, d, v, o, c) =~= s.subrange(i, s.len() as int));
    }
}

/// Substitution in a text that holds no opening delimiter is the identity.
pub proof fn lemma_replace_free_identity(
    s: Seq<char>,
    d: Seq<char>,
    v: Seq<char>,
    o: char,
    c: char,
)
    requires
        free_of(s, o),
    ensures
        replace_all(s, d, v, o, c) == s,
{
    assert forall|k: int| 0 <= k < s.len() implies #[trigger] match_len(s, k, d, o, c) is None by {
        assert(s[k] != o);
    }
    lemma_replace_nomatch_identity(s, 0, d, v, o, c);
    assert(s.subrange(0, s.len() as int) =~= s);
}

/// A placeholder match is a local matter: it survives appending text.
pub proof fn lemma_match_embed_left(a: Seq<char>, b: Seq<char>, k: int, d: Seq<char>, o: char, c: char)
    requires
        match_len(a, k, d, o, c) is Some,
    ensures
        match_len(a + b, k, d, o, c) == match_len(a, k, d, o, c),
{
    let s = a + b;
    let l = match_len(a, k, d, o, c)->Some_0;
    let j = if a[k + 2] == ' ' {
        k + 3
    } else {
        k + 2
    };
    assert(s[k] == a[k] && s[k + 1] == a[k + 1] && s[k + 2] == a[k + 2]);
    assert(s.subrange(j, j + d.len() as int) =~= a.subrange(j, j + d.len() as int));
    let kk = j + d.len();
    assert(kk + 2 <= a.len());
    assert(s[kk] == a[kk]);
    let m = if s[kk] == ' ' {
        kk + 1
    } else {
        kk
    };
    assert(s[m] == a[m] && s[m + 1] == a[m + 1]);
}

/// A placeholder match is a local matter: it survives prepending text.
pub proof fn lemma_match_embed_right(a: Seq<char>, b: Seq<char>, p: int, d: Seq<char>, o: char, c: char)
    requires
        match_len(b, p, d, o, c) is Some,
    ensures
        match_len(a + b, a.len() + p, d, o, c) == match_len(b, p, d, o, c),
{
    let s = a + b;
    let k = a.len() + p;
    let j = if b[p + 2] == ' ' {
        k + 3
    } else {
        k + 2
    };
    assert(s[k] == b[p] && s[k + 1] == b[p + 1] && s[k + 2] == b[p + 2]);
    assert(s.subrange(j, j + d.len() as int) =~= b.subrange(
        j - a.len(),
        j - a.len() + d.len() as int,
    ));
    let kk = j + d.len();
    assert(kk + 2 <= s.len());
    assert(s[kk] == b[kk - a.len()]);
    let m = if s[kk] == ' ' {
        kk + 1
    } else {
        kk
    };
    assert(s[m] == b[m - a.len()] && s[m + 1] == b[m + 1 - a.len()]);
}

/// A placeholder match, cut out of its text, is a match of the whole cut.
pub proof fn lemma_match_extract(s: Seq<char>, i: int, d: Seq<char>, o: char, c: char)
    requires
        match_len(s, i, d, o, c) is Some,
    ensures
        ({
            let l = match_len(s, i, d, o, c)->Some_0;
            match_len(s.subrange(i, i + l), 0, d, o, c) == Some(l)
        }),
{
    let l = match_len(s, i, d, o, c)->Some_0;
    let x = s.subrange(i, i + l);
    let j = if s[i + 2] == ' ' {
        i + 3
    } else {
        i + 2
    };
    assert(x[0] == s[i] && x[1] == s[i + 1] && x[2] == s[i + 2]);
    let j0 = j - i;
    assert(x.subrange(j0, j0 + d.len() as int) =~= s.subrange(j, j + d.len() as int));
    let kk = j + d.len();
    assert(kk + 2 - i <= l);
    assert(x[kk - i] == s[kk]);
    let m = if s[kk] == ' ' {
        kk + 1
    } else {
        kk
    };
    assert(m + 2 - i == l);
    assert(x[m - i] == s[m] && x[m + 1 - i] == s[m + 1]);
}

/// When no placeholder for `d` starts inside `[q, end)`, substitution
/// copies that region verbatim.
pub proof fn lemma_replace_skips_region(
    s: Seq<char>,
    q: int,
    end: int,
    d: Seq<char>,
    v: Seq<char>,
    o: char,
    c: char,
)
    requires
        0 <= q <= end <= s.len(),
        forall|k: int| q <= k < end ==> #[trigger] match_len(s, k, d, o, c) is None,
    ensures
        replace_from(s, q, d, v, o, c) == s.subrange(q, end) + replace_from(s, end, d, v, o, c),
    decreases end - q,
{
    if q == end {
        assert(s.subrange(q, end) + replace_from(s, end, d, v, o, c) =~= replace_from(
            s,
            end,
            d,
            v,
            o,
            c,
        ));
    } else {
        lemma_replace_skips_region(s, q + 1, end, d, v, o, c);
        assert(seq![s[q]] + (s.subrange(q + 1, end) + replace_from(s, end, d, v, o, c)) =~= (seq![
            s[q],
        ] + s.subrange(q + 1, end)) + replace_from(s, end, d, v, o, c));
        assert(seq![s[q]] + s.subrange(q + 1, end) =~= s.subrange(q, end));
    }
}

/// Prepending delimiter-free text preserves confinement.
proof fn lemma_confined_prepend_free(x: Seq<char>, b: Seq<char>, d: Seq<char>, o: char, c: char)
    requires
        free_of(x, o),
        free_of(x, c),
        delims_confined_from(b, 0, d, o, c),
    ensures
        delims_confined_from(x + b, 0, d, o, c),
{
    let s = x + b;
    assert forall|j: int|
        0 <= j < s.len() && (s[j] == o || s[j] == c) implies exists|k: int|
        0 <= k && #[trigger] match_covers(s, k, j, d, o, c) by {
        if j < x.len() {
            assert(s[j] == x[j]);
        } else {
            assert(s[j] == b[j - x.len()]);
            let k0 = choose|k0: int| 0 <= k0 && #[trigger] match_covers(b, k0, j - x.len(), d, o, c);
            lemma_match_embed_right(x, b, k0, d, o, c);
            assert(match_covers(s, x.len() + k0, j, d, o, c));
        }
    }
}

/// Prepending a whole placeholder preserves confinement.
proof fn lemma_confined_prepend_match(x: Seq<char>, b: Seq<char>, d: Seq<char>, o: char, c: char)
    requires
        match_len(x, 0, d, o, c) == Some(x.len() as int),
        delims_confined_from(b, 0, d, o, c),
    ensures
        delims_confined_from(x + b, 0, d, o, c),
{
    let s = x + b;
    lemma_match_embed_left(x, b, 0, d, o, c);
    assert forall|j: int|
        0 <= j < s.len() && (s[j] == o || s[j] == c) implies exists|k: int|
        0 <= k && #[trigger] match_covers(s, k, j, d, o, c) by {
        if j < x.len() {
            assert(match_covers(s, 0, j, d, o, c));
        } else {
            assert(s[j] == b[j - x.len()]);
            let k0 = choose|k0: int| 0 <= k0 && #[trigger] match_covers(b, k0, j - x.len(), d, o, c);
            lemma_match_embed_right(x, b, k0, d, o, c);
            assert(match_covers(s, x.len() + k0, j, d, o, c));
        }
    }
}

/// From position `i` on, every delimiter of `s` lies inside a placeholder
/// for `d1` or for `d2`, starting at or after `i`.
pub open spec fn delims_confined2_from(
    s: Seq<char>,
    i: int,
    d1: Seq<char>,
    d2: Seq<char>,
    o: char,
    c: char,
) -> bool {
    forall|j: int| #![trigger s[j]]
        i <= j < s.len() && (s[j] == o || s[j] == c) ==> exists|k: int|
            i <= k && (#[trigger] match_covers(s, k, j, d1, o, c) || match_covers(
                s,
                k,
                j,
                d2,
                o,
                c,
            ))
}

/// Substituting for `d1` keeps the remaining delimiters confined to the
/// placeholders for `d2`: the walk replaces every `d1` placeholder, copies
/// every `d2` placeholder whole, and emits no delimiter of its own.
#[verifier::spinoff_prover]
#[verifier::rlimit(100)]
pub proof fn lemma_replace_keeps_other_confined(
    s: Seq<char>,
    i: int,
    d1: Seq<char>,
    d2: Seq<char>,
    v: Seq<char>,
    o: char,
    c: char,
)
    requires
        0 <= i <= s.len(),
        pattern_wf(d1, o, c),
        pattern_wf(d2, o, c),
        d1 != d2,
        free_of(v, o),
        free_of(v, c),
        delims_confined2_from(s, i, d1, d2, o, c),
    ensures
        delims_confined_from(replace_from(s, i, d1, v, o, c), 0, d2, o, c),
    decreases s.len() - i,
{
    if i == s.len() {
    } else if match_len(s, i, d1, o, c) is Some {
        let l = match_len(s, i, d1, o, c)->Some_0;
        lemma_match_interior(s, i, d1, o, c);
        assert(delims_confined2_from(s, i + l, d1, d2, o, c)) by {
            assert forall|j: int|
                i + l <= j < s.len() && (s[j] == o || s[j] == c) implies exists|k: int|
                i + l <= k && (#[trigger] match_covers(s, k, j, d1, o, c) || match_covers(
                    s,
                    k,
                    j,
                    d2,
                    o,
                    c,
                )) by {
                let k0 = choose|k0: int|
                    i <= k0 && (#[trigger] match_covers(s, k0, j, d1, o, c) || match_covers(
                        s,
                        k0,
                        j,
                        d2,
                        o,
                        c,
                    ));
                if k0 < i + l {
                    if match_covers(s, k0, j, d1, o, c) {
                        if i < k0 {
                            lemma_no_match_strictly_inside(s, i, k0, d1, d1, o, c);
                        }
                        assert(k0 == i);
                        assert(j < i + l);
                    } else {
                        if i < k0 {
                            lemma_no_match_strictly_inside(s, i, k0, d1, d2, o, c);
                        }
                        assert(k0 == i);
                        lemma_distinct_idents_exclusive(s, i, d2, d1, o, c);
                    }
                }
            }
        }
        lemma_replace_keeps_other_confined(s, i + l, d1, d2, v, o, c);
        lemma_confined_prepend_free(v, replace_from(s, i + l, d1, v, o, c), d2, o, c);
    } else if match_len(s, i, d2, o, c) is Some {
        let l2 = match_len(s, i, d2, o, c)->Some_0;
        lemma_match_interior(s, i, d2, o, c);
        // no placeholder for d1 starts inside this one
        assert forall|k: int| i <= k < i + l2 implies #[trigger] match_len(s, k, d1, o, c)
            is None by {
            if i < k {
                lemma_no_match_strictly_inside(s, i, k, d2, d1, o, c);
            }
        }
        lemma_replace_skips_region(s, i, i + l2, d1, v, o, c);
        assert(delims_confined2_from(s, i + l2, d1, d2, o, c)) by {
            assert forall|j: int|
                i + l2 <= j < s.len() && (s[j] == o || s[j] == c) implies exists|k: int|
                i + l2 <= k && (#[trigger] match_covers(s, k, j, d1, o, c) || match_covers(
                    s,
                    k,
                    j,
                    d2,
                    o,
                    c,
                )) by {
                let k0 = choose|k0: int|
                    i <= k0 && (#[trigger] match_covers(s, k0, j, d1, o, c) || match_covers(
                        s,
                        k0,
                        j,
                        d2,
                        o,
                        c,
                    ));
                if k0 < i + l2 {
                    if match_covers(s, k0, j, d2, o, c) {
                        if i < k0 {
                            lemma_no_match_strictly_inside(s, i, k0, d2, d2, o, c);
                        }
                        assert(k0 == i);
                        assert(j < i + l2);
                    } else {
                        if i < k0 {
                            lemma_no_match_strictly_inside(s, i, k0, d2, d1, o, c);
                        }
                        assert(k0 == i);
                    }
                }
            }
        }
        lemma_replace_keeps_other_confined(s, i + l2, d1, d2, v, o, c);
        lemma_match_extract(s, i, d2, o, c);
        lemma_confined_prepend_match(
            s.subrange(i, i + l2),
            replace_from(s, i + l2, d1, v, o, c),
            d2,
            o,
            c,
        );
    } else {
        assert(s[i] != o && s[i] != c) by {
            if s[i] == o || s[i] == c {
                let k0 = choose|k0: int|
                    i <= k0 && (#[trigger] match_covers(s, k0, i, d1, o, c) || match_covers(
                        s,
                        k0,
                        i,
                        d2,
                        o,
                        c,
                    ));
                assert(k0 == i);
            }
        }
        assert(delims_confined2_from(s, i + 1, d1, d2, o, c)) by {
            assert forall|j: int|
                i + 1 <= j < s.len() && (s[j] == o || s[j] == c) implies exists|k: int|
                i + 1 <= k && (#[trigger] match_covers(s, k, j, d1, o, c) || match_covers(
                    s,
                    k,
                    j,
                    d2,
                    o,
                    c,
                )) by {
                let k0 = choose|k0: int|
                    i <= k0 && (#[trigger] match_covers(s, k0, j, d1, o, c) || match_covers(
                        s,
                        k0,
                        j,
                        d2,
                        o,
                        c,
                    ));
                assert(k0 != i);
            }
        }
        lemma_replace_keeps_other_confined(s, i + 1, d1, d2, v, o, c);
        lemma_confined_prepend_free(seq![s[i]], replace_from(s, i + 1, d1, v, o, c), d2, o, c);
    }
}

/// The heart of the placeholder-removal laws: when every delimiter of the
/// text lies inside a placeholder for `d` and the value carries no
/// delimiter, the substituted text is free of delimiters.
pub proof fn lemma_replace_confined_free(
    s: Seq<char>,
    i: int,
    d: Seq<char>,
    v: Seq<char>,
    o: char,
    c: char,
)
    requires
        0 <= i <= s.len(),
        pattern_wf(d, o, c),
        free_of(v, o),
        free_of(v, c),
        delims_confined_from(s, i, d, o, c),
    ensures
        free_of(replace_from(s, i, d, v, o, c), o),
        free_of(replace_from(s, i, d, v, o, c), c),
    decreases s.len() - i,
{
    if i == s.len() {
    } else {
        match match_len(s, i, d, o, c) {
            Some(l) => {
                lemma_match_interior(s, i, d, o, c);
                assert(delims_confined_from(s, i + l, d, o, c)) by {
                    assert forall|j: int|
                        i + l <= j < s.len() && (s[j] == o || s[j] == c) implies exists|k: int|
                        i + l <= k && #[trigger] match_covers(s, k, j, d, o, c) by {
                        let k0 = choose|k0: int|
                            i <= k0 && #[trigger] match_covers(s, k0, j, d, o, c);
                        if k0 < i + l {
                            if i < k0 {
                                lemma_no_match_strictly_inside(s, i, k0, d, d, o, c);
                            }
                            assert(k0 == i);
                            assert(j < i + l);
                        }
                        assert(match_covers(s, k0, j, d, o, c));
                    }
                }
                lemma_replace_confined_free(s, i + l, d, v, o, c);
                lemma_free_concat(v, replace_from(s, i + l, d, v, o, c), o);
                lemma_free_concat(v, replace_from(s, i + l, d, v, o, c), c);
            },
            None => {
                // the emitted character cannot be a delimiter: a covering
                // placeholder would have to start right here
                assert(s[i] != o && s[i] != c) by {
                    if s[i] == o || s[i] == c {
                        let k0 = choose|k0: int|
                            i <= k0 && #[trigger] match_covers(s, k0, i, d, o, c);
                        assert(k0 == i);
                    }
                }
                assert(delims_confined_from(s, i + 1, d, o, c)) by {
                    assert forall|j: int|
                        i + 1 <= j < s.len() && (s[j] == o || s[j] == c) implies exists|k: int|
                        i + 1 <= k && #[trigger] match_covers(s, k, j, d, o, c) by {
                        let k0 = choose|k0: int|
                            i <= k0 && #[trigger] match_covers(s, k0, j, d, o, c);
                        assert(k0 != i);
                        assert(match_covers(s, k0, j, d, o, c));
                    }
                }
                lemma_replace_confined_free(s, i + 1, d, v, o, c);
                lemma_free_concat(seq![s[i]], replace_from(s, i + 1, d, v, o, c), o);
                lemma_free_concat(seq![s[i]], replace_from(s, i + 1, d, v, o, c), c);
            },
        }
    }
}

} // verus!
