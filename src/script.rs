//! Which characters belong to the Hangul and Han scripts, as the `regex`
//! crate's Unicode classes tell them.
use vstd::prelude::*;

verus! {

/// Whether the class `\p{Hangul}` of the `regex` crate matches `c`.
pub uninterp spec fn hangul_class(c: char) -> bool;

/// Whether the class `\p{Han}` of the `regex` crate matches `c`.
pub uninterp spec fn han_class(c: char) -> bool;

/// Relies on `regex::Regex::is_match` for the fixed, valid pattern `\p{Hangul}`
/// (so `Regex::new` cannot fail on it): for each character of `s`, whether the
/// class matches it.
#[verifier::external_body]
pub(crate) fn hangul_flags(s: &Vec<char>) -> (r: Vec<bool>)
    ensures
        r@.len() == s@.len(),
        forall|i: int| 0 <= i < s@.len() ==> r@[i] == hangul_class(#[trigger] s@[i]),
{
    let re = regex::Regex::new(r"\p{Hangul}").unwrap();
    s.iter().map(|c| re.is_match(c.encode_utf8(&mut [0u8; 4]))).collect()
}

/// Relies on `regex::Regex::is_match` for the fixed, valid pattern `\p{Han}`
/// (so `Regex::new` cannot fail on it): for each character of `s`, whether the
/// class matches it.
#[verifier::external_body]
pub(crate) fn han_flags(s: &Vec<char>) -> (r: Vec<bool>)
    ensures
        r@.len() == s@.len(),
        forall|i: int| 0 <= i < s@.len() ==> r@[i] == han_class(#[trigger] s@[i]),
{
    let re = regex::Regex::new(r"\p{Han}").unwrap();
    s.iter().map(|c| re.is_match(c.encode_utf8(&mut [0u8; 4]))).collect()
}

} // verus!
