//! Character-level utilities shared by the template scanners.

use vstd::prelude::*;
use vstd::string::StrSliceExecFns;

verus! {

/// Characters allowed in the name or namespace part of an identifier:
/// ASCII letters, digits and underscore.
pub open spec fn is_name_char(c: char) -> bool {
    (97 <= c as u32 && c as u32 <= 122)  // a-z
        || (65 <= c as u32 && c as u32 <= 90)  // A-Z
        || (48 <= c as u32 && c as u32 <= 57)  // 0-9
        || c as u32 == 95  // _
}

/// Characters that may appear in the body of a reference or placeholder:
/// name characters plus the namespace separator character.
pub open spec fn is_body_char(c: char) -> bool {
    is_name_char(c) || c == ':'
}

/// True when `ch` does not occur in `t`.
pub open spec fn free_of(t: Seq<char>, ch: char) -> bool {
    forall|i: int| 0 <= i < t.len() ==> t[i] != ch
}

pub fn name_char(c: char) -> (r: bool)
    ensures
        r == is_name_char(c),
{
    let u = c as u32;
    (97 <= u && u <= 122) || (65 <= u && u <= 90) || (48 <= u && u <= 57) || u == 95
}

pub fn body_char(c: char) -> (r: bool)
    ensures
        r == is_body_char(c),
{
    name_char(c) || c == ':'
}

/// The characters of a string slice, in order.
pub fn chars_of(s: &str) -> (r: Vec<char>)
    ensures
        r@ == s@,
{
    let n = s.unicode_len();
    let mut v: Vec<char> = Vec::new();
    let mut i: usize = 0;
    while i < n
        invariant
            n == s@.len(),
            i <= n,
            v@ == s@.subrange(0, i as int),
        decreases n - i,
    {
        let c = s.get_char(i);
        v.push(c);
        proof {
            assert(s@.subrange(0, i + 1 as int) =~= s@.subrange(0, i as int).push(s@[i as int]));
        }
        i += 1;
    }
    proof {
        assert(v@ =~= s@);
    }
    v
}

/// Relies on `String`'s `FromIterator<char>` implementation, through
/// `Iterator::collect`: the collected string holds exactly the characters
/// of the iterator, in order.
#[verifier::external_body]
pub fn string_of(v: &Vec<char>) -> (r: String)
    ensures
        r@ == v@,
{
    v.iter().collect()
}

} // verus!
