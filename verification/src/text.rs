//! Conversions between strings and character vectors, and lower-casing,
//! which is taken from the standard library.

use vstd::prelude::*;

verus! {

/// The lower-case form that `str::to_lowercase` gives a text.
pub uninterp spec fn lowercase_of(text: Seq<char>) -> Seq<char>;

/// Lower-cases a text with `str::to_lowercase`. The contract only names the
/// result: the Unicode mapping itself is not described here.
#[verifier::external_body]
fn to_lowercase(text: &str) -> (lowered: String)
    ensures
        lowered@ == lowercase_of(text@),
{
    text.to_lowercase()
}

/// The lower-case form of a text. The empty text is its own; of any other
/// the form is the one that the standard library gives.
pub open spec fn lowered(text: Seq<char>) -> Seq<char> {
    if text.len() == 0 {
        text
    } else {
        lowercase_of(text)
    }
}

/// Lower-cases a text.
pub fn lower(text: &str) -> (r: String)
    ensures
        r@ == lowered(text@),
{
    if text.is_empty() {
        String::new()
    } else {
        to_lowercase(text)
    }
}

/// Builds a string from characters with `String::from_iter`: the string
/// holds exactly the given characters, in order.
#[verifier::external_body]
pub(crate) fn string_of(chars: &[char]) -> (s: String)
    ensures
        s@ == chars@,
{
    String::from_iter(chars.iter())
}

/// The characters of a string, in order.
pub fn chars_of(s: &str) -> (chars: Vec<char>)
    ensures
        chars@ == s@,
{
    let mut chars: Vec<char> = Vec::new();
    for c in it: s.chars()
        invariant
            it.seq() == s@,
            chars@ == it.seq().take(it.index() as int),
    {
        chars.push(c);
    }
    chars
}

} // verus!
