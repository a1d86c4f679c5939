//! Small string helpers shared by the parsers.

use vstd::prelude::*;
use vstd::std_specs::iter::IteratorSpec;

verus! {

/// The characters of a string slice, as a vector.
pub fn chars_of(s: &str) -> (result: Vec<char>)
    ensures
        result@ == s@,
{
    broadcast use vstd::string::axiom_spec_iter;

    let mut result: Vec<char> = Vec::new();
    let mut chars = s.chars();
    loop
        invariant
            result@ + chars.remaining() == s@,
            chars.decrease() is Some,
        ensures
            result@ == s@,
        decreases chars.decrease()->0,
    {
        match chars.next() {
            Some(c) => {
                result.push(c);
                assert(result@ + chars.remaining() =~= s@);
            },
            None => {
                assert(result@ =~= s@);
                break;
            },
        }
    }
    result
}

/// Whether two string slices hold the same characters.
pub fn text_equals(a: &str, b: &str) -> (result: bool)
    ensures
        result == (a@ == b@),
{
    let ca = chars_of(a);
    let cb = chars_of(b);
    if ca.len() != cb.len() {
        return false;
    }
    let n = ca.len();
    let mut i: usize = 0;
    while i < n
        invariant
            ca@ == a@,
            cb@ == b@,
            n == ca@.len(),
            n == cb@.len(),
            i <= n,
            forall|k: int| 0 <= k < i ==> ca@[k] == cb@[k],
        decreases n - i,
    {
        if ca[i] != cb[i] {
            return false;
        }
        i = i + 1;
    }
    assert(a@ =~= b@);
    true
}

/// What `str::to_lowercase` gives for a text: its lowercase equivalent under
/// the Unicode `Lowercase` property.
pub uninterp spec fn lowercase(s: Seq<char>) -> Seq<char>;

/// What `str::to_uppercase` gives for a text: its uppercase equivalent under
/// the Unicode `Uppercase` property.
pub uninterp spec fn uppercase(s: Seq<char>) -> Seq<char>;

/// Every character of the text is ASCII.
pub open spec fn is_ascii_text(s: Seq<char>) -> bool {
    forall|i: int| 0 <= i < s.len() ==> (#[trigger] s[i] as u32) < 128
}

/// An ASCII upper-case letter in lower case; any other character as it is.
pub open spec fn ascii_lower_char(c: char) -> char {
    if 'A' <= c && c <= 'Z' {
        ((c as int) + 32) as char
    } else {
        c
    }
}

/// An ASCII lower-case letter in upper case; any other character as it is.
pub open spec fn ascii_upper_char(c: char) -> char {
    if 'a' <= c && c <= 'z' {
        ((c as int) - 32) as char
    } else {
        c
    }
}

/// The text with its ASCII upper-case letters in lower case.
pub open spec fn ascii_lowercase(s: Seq<char>) -> Seq<char> {
    s.map_values(|c: char| ascii_lower_char(c))
}

/// The text with its ASCII lower-case letters in upper case.
pub open spec fn ascii_uppercase(s: Seq<char>) -> Seq<char> {
    s.map_values(|c: char| ascii_upper_char(c))
}

/// Calls `str::to_lowercase`. The contract names the result (`lowercase`);
/// of the Unicode case mapping it states only what holds of ASCII text: `A`
/// to `Z` become `a` to `z` and every other character stays.
#[verifier::external_body]
pub(crate) fn to_lowercase(s: &str) -> (result: String)
    ensures
        result@ == lowercase(s@),
        is_ascii_text(s@) ==> result@ == ascii_lowercase(s@),
{
    s.to_lowercase()
}

/// Calls `str::to_uppercase`. The contract names the result (`uppercase`);
/// of the Unicode case mapping it states only what holds of ASCII text: `a`
/// to `z` become `A` to `Z` and every other character stays.
#[verifier::external_body]
pub(crate) fn to_uppercase(s: &str) -> (result: String)
    ensures
        result@ == uppercase(s@),
        is_ascii_text(s@) ==> result@ == ascii_uppercase(s@),
{
    s.to_uppercase()
}

} // verus!
