//! The names of the cache files. An index file points at its component
//! files; all of them share a base name.

use vstd::prelude::*;
use crate::text::string_of;

verus! {

/// The character of a decimal digit.
pub open spec fn digit_char(d: int) -> char {
    if d == 0 {
        '0'
    } else if d == 1 {
        '1'
    } else if d == 2 {
        '2'
    } else if d == 3 {
        '3'
    } else if d == 4 {
        '4'
    } else if d == 5 {
        '5'
    } else if d == 6 {
        '6'
    } else if d == 7 {
        '7'
    } else if d == 8 {
        '8'
    } else {
        '9'
    }
}

/// The decimal digits of `n`, most significant first, without leading
/// zeros.
pub open spec fn digits_of(n: nat) -> Seq<char>
    decreases n,
{
    if n < 10 {
        seq![digit_char(n as int)]
    } else {
        digits_of(n / 10).push(digit_char((n % 10) as int))
    }
}

/// The character of a decimal digit.
fn digit(d: usize) -> (c: char)
    requires
        d < 10,
    ensures
        c == digit_char(d as int),
{
    if d == 0 {
        '0'
    } else if d == 1 {
        '1'
    } else if d == 2 {
        '2'
    } else if d == 3 {
        '3'
    } else if d == 4 {
        '4'
    } else if d == 5 {
        '5'
    } else if d == 6 {
        '6'
    } else if d == 7 {
        '7'
    } else if d == 8 {
        '8'
    } else {
        '9'
    }
}

/// Appends the decimal digits of `n`.
fn push_digits(n: usize, out: &mut Vec<char>)
    ensures
        final(out)@ == old(out)@ + digits_of(n as nat),
    decreases n,
{
    if n >= 10 {
        push_digits(n / 10, out);
    }
    out.push(digit(n % 10));
    assert(out@ =~= old(out)@ + digits_of(n as nat));
}

/// Writes a number in decimal.
pub fn decimal(n: usize) -> (s: String)
    ensures
        s@ == digits_of(n as nat),
{
    let mut out: Vec<char> = Vec::new();
    push_digits(n, &mut out);
    assert(out@ =~= digits_of(n as nat));
    string_of(out.as_slice())
}

/// The files of a preprocessed index.
#[derive(Debug)]
pub struct IndexLayout {
    /// The index file, which holds the names of the others.
    pub index: String,
    /// The vocabulary and the idf vector.
    pub terms: String,
    /// The documents.
    pub docs: String,
    /// The sparse matrix.
    pub matrix: String,
}

/// The files of a decomposition of one rank.
#[derive(Debug)]
pub struct SvdLayout {
    /// The index file, which holds the names of the others.
    pub index: String,
    /// The rank and the singular values.
    pub meta: String,
    /// The left singular vectors.
    pub u: String,
    /// The right singular vectors, transposed.
    pub vt: String,
    /// The document coordinates.
    pub docs: String,
}

/// The name `base` followed by `suffix`.
fn with_suffix(base: &str, suffix: &str) -> (name: String)
    ensures
        name@ == base@ + suffix@,
{
    let mut name = String::from_str(base);
    name.append(suffix);
    name
}

/// The file names of the index with the given base name.
pub fn index_layout(base: &str) -> (layout: IndexLayout)
    ensures
        layout.index@ == base@ + ".idx"@,
        layout.terms@ == base@ + "_terms"@,
        layout.docs@ == base@ + "_docs"@,
        layout.matrix@ == base@ + "_matrix"@,
{
    IndexLayout {
        index: with_suffix(base, ".idx"),
        terms: with_suffix(base, "_terms"),
        docs: with_suffix(base, "_docs"),
        matrix: with_suffix(base, "_matrix"),
    }
}

/// The base name of the decomposition of rank `k` of the index with the
/// given base name.
pub open spec fn svd_base(base: Seq<char>, k: nat) -> Seq<char> {
    base + "_svd_k"@ + digits_of(k)
}

/// The file names of the decomposition of rank `k`.
pub fn svd_layout(base: &str, k: usize) -> (layout: SvdLayout)
    ensures
        layout.index@ == svd_base(base@, k as nat) + ".idx"@,
        layout.meta@ == svd_base(base@, k as nat) + "_meta"@,
        layout.u@ == svd_base(base@, k as nat) + "_u"@,
        layout.vt@ == svd_base(base@, k as nat) + "_vt"@,
        layout.docs@ == svd_base(base@, k as nat) + "_docs"@,
{
    let mut stem = with_suffix(base, "_svd_k");
    let digits = decimal(k);
    stem.append(digits.as_str());
    SvdLayout {
        index: with_suffix(stem.as_str(), ".idx"),
        meta: with_suffix(stem.as_str(), "_meta"),
        u: with_suffix(stem.as_str(), "_u"),
        vt: with_suffix(stem.as_str(), "_vt"),
        docs: with_suffix(stem.as_str(), "_docs"),
    }
}

} // verus!
