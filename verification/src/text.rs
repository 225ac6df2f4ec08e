//! Characters, ASCII case folding, and conversion of strings to
//! character vectors.

use vstd::prelude::*;

verus! {

/// True when `c` is an ASCII uppercase letter.
pub open spec fn is_upper(c: char) -> bool {
    'A' <= c && c <= 'Z'
}

/// The code point of `c` with ASCII uppercase letters folded to lowercase.
pub open spec fn fold_char(c: char) -> int {
    if is_upper(c) {
        c as int + 32
    } else {
        c as int
    }
}

/// The case-folded code points of a whole character sequence.
pub open spec fn fold_chars(s: Seq<char>) -> Seq<int> {
    s.map(|i: int, c: char| fold_char(c))
}

/// Equality of two characters up to ASCII case.
pub open spec fn chars_equal_ci(a: char, b: char) -> bool {
    fold_char(a) == fold_char(b)
}

/// Compares two characters up to ASCII case.
pub fn eq_ci(a: char, b: char) -> (r: bool)
    ensures
        r == chars_equal_ci(a, b),
{
    let fa = if a >= 'A' && a <= 'Z' { a as u32 + 32 } else { a as u32 };
    let fb = if b >= 'A' && b <= 'Z' { b as u32 + 32 } else { b as u32 };
    fa == fb
}

/// Collects the characters of a string slice into a vector.
pub fn to_chars(s: &str) -> (v: Vec<char>)
    ensures
        v@ == s@,
{
    let n = s.unicode_len();
    let mut v: Vec<char> = Vec::new();
    let mut i: usize = 0;
    while i < n
        invariant
            i <= n,
            n == s@.len(),
            v@ == s@.take(i as int),
        decreases n - i,
    {
        v.push(s.get_char(i));
        i += 1;
        assert(v@ =~= s@.take(i as int));
    }
    assert(v@ =~= s@);
    v
}

} // verus!
