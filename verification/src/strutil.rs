//! Character and string helpers: ASCII case-insensitive comparison and the
//! bridge between `String`/`&str` and `Vec<char>`, on which the parsing and
//! serialization code works.

use vstd::prelude::*;

verus! {

/// Relies on `String::push` of std: appends the given character to the end
/// of the string.
pub assume_specification[ String::push ](s: &mut String, ch: char)
    ensures
        final(s)@ == old(s)@.push(ch),
;

/// Two characters are equal up to ASCII case: either identical, or the same
/// letter with the two cases 32 code points apart.
pub open spec fn eq_char_ci(a: char, b: char) -> bool {
    a == b || ('a' <= a && a <= 'z' && a as u32 == b as u32 + 32) || ('a' <= b && b <= 'z'
        && b as u32 == a as u32 + 32)
}

/// Two character sequences are equal up to ASCII case.
pub open spec fn eq_seq_ci(a: Seq<char>, b: Seq<char>) -> bool {
    a.len() == b.len() && forall|i: int| 0 <= i < a.len() ==> eq_char_ci(a[i], b[i])
}

/// Decides `eq_char_ci`.
pub fn eq_char_ci_exec(a: char, b: char) -> (r: bool)
    ensures
        r == eq_char_ci(a, b),
{
    a == b || ('a' <= a && a <= 'z' && a as u32 == (b as u32) + 32) || ('a' <= b && b <= 'z' && (
    b as u32) == (a as u32) + 32)
}

/// Decides `eq_seq_ci` on two character vectors.
pub fn eq_chars_ci(a: &Vec<char>, b: &Vec<char>) -> (r: bool)
    ensures
        r == eq_seq_ci(a@, b@),
{
    if a.len() != b.len() {
        return false;
    }
    let mut i: usize = 0;
    while i < a.len()
        invariant
            i <= a.len(),
            a@.len() == b@.len(),
            forall|j: int| 0 <= j < i ==> eq_char_ci(a@[j], b@[j]),
        decreases a.len() - i,
    {
        if !eq_char_ci_exec(a[i], b[i]) {
            return false;
        }
        i = i + 1;
    }
    true
}

/// Decides equality of the character sequences of two string slices.
pub fn eq_str(a: &str, b: &str) -> (r: bool)
    ensures
        r == (a@ == b@),
{
    let na = a.unicode_len();
    let nb = b.unicode_len();
    if na != nb {
        proof {
            assert(a@ != b@);
        }
        return false;
    }
    let mut i: usize = 0;
    while i < na
        invariant
            i <= na,
            na == a@.len() && na == b@.len(),
            forall|j: int| 0 <= j < i ==> a@[j] == b@[j],
        decreases na - i,
    {
        if a.get_char(i) != b.get_char(i) {
            proof {
                assert(a@ != b@);
            }
            return false;
        }
        i = i + 1;
    }
    proof {
        assert(a@ =~= b@);
    }
    true
}

/// Decides `eq_seq_ci` on two string slices.
pub fn eq_str_ci(a: &str, b: &str) -> (r: bool)
    ensures
        r == eq_seq_ci(a@, b@),
{
    let va = str_chars(a);
    let vb = str_chars(b);
    eq_chars_ci(&va, &vb)
}

/// Collects the characters of a string slice into a vector.
pub fn str_chars(s: &str) -> (r: Vec<char>)
    ensures
        r@ == s@,
{
    let n = s.unicode_len();
    let mut r: Vec<char> = Vec::new();
    let mut i: usize = 0;
    while i < n
        invariant
            i <= n,
            n == s@.len(),
            r@ == s@.subrange(0, i as int),
        decreases n - i,
    {
        let c = s.get_char(i);
        r.push(c);
        proof {
            assert(r@ =~= s@.subrange(0, i + 1 as int));
        }
        i = i + 1;
    }
    proof {
        assert(r@ =~= s@);
    }
    r
}

/// Builds a `String` holding exactly the given characters.
pub fn chars_to_string(v: &Vec<char>) -> (r: String)
    ensures
        r@ == v@,
{
    let mut r = String::new();
    let mut i: usize = 0;
    while i < v.len()
        invariant
            i <= v.len(),
            r@ == v@.subrange(0, i as int),
        decreases v.len() - i,
    {
        r.push(v[i]);
        proof {
            assert(r@ =~= v@.subrange(0, i + 1 as int));
        }
        i = i + 1;
    }
    proof {
        assert(r@ =~= v@);
    }
    r
}

} // verus!
