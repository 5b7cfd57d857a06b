//! Reading a choice stream: one choice per line, the value up to the
//! first tab, an optional description after it. Lines without a value are
//! passed over.

use vstd::prelude::*;
use crate::choices::{Choice, ChoiceV};
use crate::identifiers::copy_range;
use crate::text::{chars_of, string_of};

verus! {

/// Why reading a choice stream failed; the field carries the cause of the
/// read failure as plain text.
#[derive(Debug)]
pub enum ErrorsChoiceRead {
    ChoiceIO(String),
}

/// Position of the first `c` in `s` at or after `i`, if any.
pub open spec fn find_from(s: Seq<char>, i: int, c: char) -> Option<int>
    decreases s.len() - i,
{
    if i < 0 || i >= s.len() {
        None
    } else if s[i] == c {
        Some(i)
    } else {
        find_from(s, i + 1, c)
    }
}

/// A line without its trailing carriage return, if it has one.
pub open spec fn strip_cr(line: Seq<char>) -> Seq<char> {
    if line.len() > 0 && line.last() == '\r' {
        line.drop_last()
    } else {
        line
    }
}

/// The choice a line denotes: the value up to the first tab, the
/// description between the first and second tab. A line without a value
/// denotes none.
pub open spec fn spec_parse_line(line: Seq<char>) -> Option<ChoiceV> {
    match find_from(line, 0, '\t') {
        None => if line.len() > 0 {
            Some(ChoiceV { value: line, description: None })
        } else {
            None
        },
        Some(p) => if p == 0 {
            None
        } else {
            let rest = line.subrange(p + 1, line.len() as int);
            Some(
                ChoiceV {
                    value: line.subrange(0, p),
                    description: Some(
                        match find_from(rest, 0, '\t') {
                            Some(q) => rest.subrange(0, q),
                            None => rest,
                        },
                    ),
                },
            )
        },
    }
}

/// A found position lies between the start of the search and the end.
pub proof fn lemma_find_bounds(s: Seq<char>, i: int, c: char)
    ensures
        find_from(s, i, c) is Some ==> i <= find_from(s, i, c)->Some_0 < s.len(),
    decreases s.len() - i,
{
    if 0 <= i && i < s.len() && s[i] != c {
        lemma_find_bounds(s, i + 1, c);
    }
}

/// The choices of the stream from position `i` on, one line at a time.
pub open spec fn spec_read_from(s: Seq<char>, i: int) -> Seq<ChoiceV>
    decreases s.len() + 1 - i,
    via spec_read_from_decreases
{
    if i < 0 || i >= s.len() {
        Seq::empty()
    } else {
        let e = match find_from(s, i, '\n') {
            Some(p) => p,
            None => s.len() as int,
        };
        let head = match spec_parse_line(strip_cr(s.subrange(i, e))) {
            Some(c) => seq![c],
            None => Seq::empty(),
        };
        head + spec_read_from(s, e + 1)
    }
}

#[via_fn]
proof fn spec_read_from_decreases(s: Seq<char>, i: int) {
    lemma_find_bounds(s, i, '\n');
}

/// The choices of the whole stream.
pub open spec fn spec_read_choices(s: Seq<char>) -> Seq<ChoiceV> {
    spec_read_from(s, 0)
}

/// Position of the first `c` in `s` at or after `i`, if any.
fn scan_for(s: &Vec<char>, i: usize, c: char) -> (r: Option<usize>)
    requires
        i <= s@.len(),
    ensures
        r is Some ==> find_from(s@, i as int, c) == Some(r->Some_0 as int) && i <= r->Some_0
            < s@.len(),
        r is None ==> find_from(s@, i as int, c) is None,
{
    let n = s.len();
    let mut k = i;
    while k < n && s[k] != c
        invariant
            i <= k <= n,
            n == s@.len(),
            find_from(s@, i as int, c) == find_from(s@, k as int, c),
        decreases n - k,
    {
        k += 1;
    }
    if k == n {
        None
    } else {
        Some(k)
    }
}

/// The choice a line denotes, if it has a value.
fn parse_line(line: &Vec<char>) -> (r: Option<Choice>)
    ensures
        r is Some <==> spec_parse_line(line@) is Some,
        r is Some ==> r->Some_0@ == spec_parse_line(line@)->Some_0,
{
    let n = line.len();
    match scan_for(line, 0, '\t') {
        None => {
            if n > 0 {
                let value = string_of(line);
                Some(Choice::new(value.as_str(), None))
            } else {
                None
            }
        },
        Some(p) => {
            if p == 0 {
                None
            } else {
                let mut value_chars: Vec<char> = Vec::new();
                copy_range(line, 0, p, &mut value_chars);
                let mut rest: Vec<char> = Vec::new();
                copy_range(line, p + 1, n, &mut rest);
                let desc_chars = match scan_for(&rest, 0, '\t') {
                    Some(q) => {
                        let mut d: Vec<char> = Vec::new();
                        copy_range(&rest, 0, q, &mut d);
                        d
                    },
                    None => rest,
                };
                let value = string_of(&value_chars);
                let desc = string_of(&desc_chars);
                Some(Choice::new(value.as_str(), Some(desc.as_str())))
            }
        },
    }
}

/// The choices of a stream: one per line, value and optional tab-separated
/// description; lines without a value are passed over.
pub fn read_choices(input: &str) -> (r: Vec<Choice>)
    ensures
        r@.len() == spec_read_choices(input@).len(),
        forall|i: int| 0 <= i < r@.len() ==> #[trigger] r@[i]@ == spec_read_choices(input@)[i],
{
    let s = chars_of(input);
    let n = s.len();
    let mut out: Vec<Choice> = Vec::new();
    let mut i: usize = 0;
    let ghost whole = spec_read_from(s@, 0);
    while i < n
        invariant
            i <= n,
            n == s@.len(),
            s@ == input@,
            whole == spec_read_choices(input@),
            out@.len() <= whole.len(),
            whole == choice_views(out@) + spec_read_from(s@, i as int),
        decreases n - i,
    {
        let e = match scan_for(&s, i, '\n') {
            Some(p) => p,
            None => n,
        };
        let mut line: Vec<char> = Vec::new();
        copy_range(&s, i, e, &mut line);
        if line.len() > 0 && line[line.len() - 1] == '\r' {
            let _ = line.pop();
            proof {
                assert(line@ =~= strip_cr(s@.subrange(i as int, e as int)));
            }
        } else {
            proof {
                assert(line@ == strip_cr(s@.subrange(i as int, e as int)));
            }
        }
        let ghost before = out@;
        match parse_line(&line) {
            Some(c) => {
                out.push(c);
                proof {
                    assert(out@.drop_last() =~= before);
                    assert(choice_views(out@) =~= choice_views(before).push(out@.last()@));
                    assert(choice_views(before).push(out@.last()@) + spec_read_from(
                        s@,
                        e + 1 as int,
                    ) =~= choice_views(before) + (seq![out@.last()@] + spec_read_from(
                        s@,
                        e + 1 as int,
                    )));
                }
            },
            None => {
                proof {
                    assert(choice_views(before) + (Seq::<ChoiceV>::empty() + spec_read_from(
                        s@,
                        e + 1 as int,
                    )) =~= choice_views(before) + spec_read_from(s@, e + 1 as int));
                }
            },
        }
        proof {
            if e == n {
                assert(spec_read_from(s@, e + 1 as int) =~= spec_read_from(s@, n as int));
            }
        }
        i = if e < n {
            e + 1
        } else {
            n
        };
    }
    proof {
        assert(spec_read_from(s@, i as int) =~= Seq::<ChoiceV>::empty());
        assert(choice_views(out@) + Seq::<ChoiceV>::empty() =~= choice_views(out@));
        assert forall|q: int| 0 <= q < out@.len() implies #[trigger] out@[q]@ == spec_read_choices(
            input@,
        )[q] by {
            assert(choice_views(out@)[q] == out@[q]@);
        }
    }
    out
}

/// The views of a sequence of choices.
pub open spec fn choice_views(r: Seq<Choice>) -> Seq<ChoiceV> {
    r.map_values(|c: Choice| c@)
}

} // verus!
