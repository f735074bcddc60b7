//! The 26-letter alphabet that every permutation in the machine acts on.
//!
//! Letters are the uppercase ASCII characters `'A'..='Z'`; every rotor wiring,
//! notch set and plugboard table is described over their positions `0..26`.

use vstd::prelude::*;
use vstd::string::StrSliceExecFns;

verus! {

/// A letter of the machine's alphabet: an uppercase ASCII character.
pub open spec fn is_letter(c: char) -> bool {
    'A' <= c && c <= 'Z'
}

/// Alphabet position of a letter: `'A'` is 0, ..., `'Z'` is 25.
pub open spec fn pos_spec(c: char) -> int {
    c as u32 - 'A' as u32
}

/// The letter at alphabet position `i`.
pub open spec fn chr_spec(i: int) -> char {
    (('A' as u8 + i) as u8) as char
}

/// Uppercase folding of a single character: lowercase ASCII letters are
/// folded to their uppercase letter, everything else stays as it is.  The
/// folding is deliberately ASCII-only: the machine's alphabet is A-Z, and
/// characters outside ASCII pass through the cipher unfolded.
pub open spec fn upper_spec(c: char) -> char {
    if 'a' <= c && c <= 'z' {
        chr_spec(c as u32 - 'a' as u32)
    } else {
        c
    }
}

/// Positions and letters are inverse to one another.
pub proof fn lemma_pos_chr(i: int)
    requires
        0 <= i < 26,
    ensures
        is_letter(chr_spec(i)),
        pos_spec(chr_spec(i)) == i,
{
}

/// Every letter sits at the position its `pos_spec` names.
pub proof fn lemma_chr_pos(c: char)
    requires
        is_letter(c),
    ensures
        0 <= pos_spec(c) < 26,
        chr_spec(pos_spec(c)) == c,
{
}

/// Whether `c` is a letter of the alphabet.
pub fn is_alpha(c: char) -> (b: bool)
    ensures
        b == is_letter(c),
{
    'A' <= c && c <= 'Z'
}

/// The alphabet position of a letter.
pub fn pos_of(c: char) -> (i: usize)
    requires
        is_letter(c),
    ensures
        i == pos_spec(c),
        i < 26,
{
    (c as u8 - 'A' as u8) as usize
}

/// The letter at alphabet position `i`.
pub fn chr_of(i: usize) -> (c: char)
    requires
        i < 26,
    ensures
        c == chr_spec(i as int),
        is_letter(c),
{
    ('A' as u8 + i as u8) as char
}

/// Uppercase folding of a single character.
pub fn to_upper(c: char) -> (r: char)
    ensures
        r == upper_spec(c),
{
    if 'a' <= c && c <= 'z' {
        chr_of((c as u8 - 'a' as u8) as usize)
    } else {
        c
    }
}

/// Character-for-character equality of two string slices.
pub fn str_eq(a: &str, b: &str) -> (r: bool)
    ensures
        r == (a@ == b@),
{
    let n = a.unicode_len();
    if n != b.unicode_len() {
        return false;
    }
    for i in 0..n
        invariant
            a@.len() == n,
            b@.len() == n,
            forall|k: int| 0 <= k < i ==> a@[k] == b@[k],
    {
        if a.get_char(i) != b.get_char(i) {
            return false;
        }
    }
    proof {
        assert(a@ =~= b@);
    }
    true
}

/// Whether the string holds the character `c`.
pub fn str_contains_char(s: &str, c: char) -> (r: bool)
    ensures
        r == s@.contains(c),
{
    let n = s.unicode_len();
    for i in 0..n
        invariant
            s@.len() == n,
            forall|k: int| 0 <= k < i ==> s@[k] != c,
    {
        if s.get_char(i) == c {
            return true;
        }
    }
    false
}

} // verus!
