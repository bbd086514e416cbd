//! Porter-style suffix stripping on words held as vectors of characters.

use vstd::prelude::*;
use vstd::slice::slice_subrange;
use crate::text::{chars_of, lower, lowered, string_of};

verus! {

/// Whether position `i` of `w` holds a vowel: one of `a e i o u`, or a `y`
/// that follows a consonant. Positions outside the word hold no vowel.
pub open spec fn vowel_at(w: Seq<char>, i: int) -> bool
    decreases i,
{
    if i < 0 || i >= w.len() {
        false
    } else {
        let c = w[i];
        c == 'a' || c == 'e' || c == 'i' || c == 'o' || c == 'u' || (c == 'y' && i > 0
            && !vowel_at(w, i - 1))
    }
}

/// Number of positions `j` with `0 < j < n` where a vowel at `j - 1` is
/// followed by a consonant at `j`.
pub open spec fn measure_upto(w: Seq<char>, n: int) -> nat
    decreases n,
{
    if n <= 1 {
        0
    } else {
        let step: nat = if vowel_at(w, n - 2) && !vowel_at(w, n - 1) {
            1
        } else {
            0
        };
        measure_upto(w, n - 1) + step
    }
}

/// The measure of a word: its number of vowel-to-consonant transitions.
pub open spec fn measure_of(w: Seq<char>) -> nat {
    measure_upto(w, w.len() as int)
}

/// Whether some position of `w` holds a vowel.
pub open spec fn contains_vowel(w: Seq<char>) -> bool {
    exists|i: int| 0 <= i < w.len() && vowel_at(w, i)
}

/// Tells whether position `i` of the word holds a vowel.
pub fn is_vowel(word: &[char], i: usize) -> (r: bool)
    requires
        i < word@.len(),
    ensures
        r == vowel_at(word@, i as int),
    decreases i,
{
    let c = word[i];
    match c {
        'a' | 'e' | 'i' | 'o' | 'u' => true,
        'y' => i > 0 && !is_vowel(word, i - 1),
        _ => false,
    }
}

/// Counts the vowel-to-consonant transitions of the word.
pub fn measure(word: &[char]) -> (m: usize)
    ensures
        m == measure_of(word@),
{
    let mut m: usize = 0;
    let mut prev_vowel = false;
    let mut i: usize = 0;
    while i < word.len()
        invariant
            i <= word@.len(),
            m == measure_upto(word@, i as int),
            m <= i,
            prev_vowel == (i > 0 && vowel_at(word@, i - 1)),
        decreases word@.len() - i,
    {
        let current_vowel = is_vowel(word, i);
        if prev_vowel && !current_vowel {
            m += 1;
        }
        prev_vowel = current_vowel;
        i += 1;
    }
    m
}

/// Tells whether the word holds a vowel.
pub fn has_vowel(word: &[char]) -> (r: bool)
    ensures
        r == contains_vowel(word@),
{
    let mut i: usize = 0;
    while i < word.len()
        invariant
            i <= word@.len(),
            forall|j: int| 0 <= j < i ==> !vowel_at(word@, j),
        decreases word@.len() - i,
    {
        if is_vowel(word, i) {
            return true;
        }
        i += 1;
    }
    false
}


/// Whether `w` ends in consonant, vowel, consonant, the last of them not
/// `w`, `x` or `y`.
pub open spec fn cvc_end(w: Seq<char>) -> bool {
    let n = w.len() as int;
    n >= 3 && !vowel_at(w, n - 3) && vowel_at(w, n - 2) && !vowel_at(w, n - 1) && w[n - 1] != 'w'
        && w[n - 1] != 'x' && w[n - 1] != 'y'
}

/// Whether `w` ends with the characters of `suffix`.
pub open spec fn ends_with(w: Seq<char>, suffix: Seq<char>) -> bool {
    suffix.len() <= w.len() && w.subrange(w.len() - suffix.len(), w.len() as int) == suffix
}

/// What stands in `w` before its last `suffix.len()` characters.
pub open spec fn stem_before(w: Seq<char>, suffix: Seq<char>) -> Seq<char> {
    w.take(w.len() - suffix.len())
}

/// `w` with its last `suffix.len()` characters replaced by `replacement`.
pub open spec fn replaced(w: Seq<char>, suffix: Seq<char>, replacement: Seq<char>) -> Seq<char> {
    stem_before(w, suffix) + replacement
}

/// Tells whether the word ends consonant, vowel, consonant, the last
/// not `w`, `x` or `y`.
pub fn ends_with_cvc(word: &[char]) -> (r: bool)
    ensures
        r == cvc_end(word@),
{
    if word.len() < 3 {
        return false;
    }
    let i = word.len() - 3;
    let last_c = word[i + 2];
    !is_vowel(word, i) && is_vowel(word, i + 1) && !is_vowel(word, i + 2) && last_c != 'w'
        && last_c != 'x' && last_c != 'y'
}

/// Tells whether the word ends with the given characters.
fn has_suffix(word: &[char], suffix: &[char]) -> (r: bool)
    ensures
        r == ends_with(word@, suffix@),
{
    if suffix.len() > word.len() {
        return false;
    }
    let start = word.len() - suffix.len();
    let mut i: usize = 0;
    while i < suffix.len()
        invariant
            start + suffix@.len() == word@.len(),
            word@.len() <= usize::MAX,
            i <= suffix@.len(),
            forall|j: int| 0 <= j < i ==> word@[start + j] == suffix@[j],
        decreases suffix@.len() - i,
    {
        if word[start + i] != suffix[i] {
            assert(word@.subrange(start as int, word@.len() as int)[i as int] != suffix@[i as int]);
            return false;
        }
        i += 1;
    }
    assert(word@.subrange(start as int, word@.len() as int) =~= suffix@);
    true
}

/// Replaces `suffix` at the end of the word by `replacement`, if the word
/// ends with it, and tells whether it did.
pub fn replace_suffix(word: &mut Vec<char>, suffix: &str, replacement: &str) -> (r: bool)
    ensures
        r == ends_with(old(word)@, suffix@),
        r ==> final(word)@ == replaced(old(word)@, suffix@, replacement@),
        !r ==> final(word)@ == old(word)@,
{
    let suffix_chars = chars_of(suffix);
    let mut replacement_chars = chars_of(replacement);
    if has_suffix(word.as_slice(), suffix_chars.as_slice()) {
        let new_len = word.len() - suffix_chars.len();
        word.truncate(new_len);
        word.append(&mut replacement_chars);
        true
    } else {
        false
    }
}

/// Replaces `suffix` at the end of the word by `replacement`, if the word
/// ends with it and `condition` holds of what stands before it, and tells
/// whether it did.
pub fn replace_suffix_condition<F>(
    word: &mut Vec<char>,
    suffix: &str,
    replacement: &str,
    condition: F,
) -> (r: bool) where F: Fn(&[char]) -> bool
    requires
        forall|stem: &[char]| #[trigger] condition.requires((stem,)),
    ensures
        r ==> ends_with(old(word)@, suffix@),
        ends_with(old(word)@, suffix@) ==> exists|stem: &[char]|
            stem@ == stem_before(old(word)@, suffix@) && #[trigger] condition.ensures((stem,), r),
        r ==> final(word)@ == replaced(old(word)@, suffix@, replacement@),
        !r ==> final(word)@ == old(word)@,
{
    let suffix_chars = chars_of(suffix);
    if has_suffix(word.as_slice(), suffix_chars.as_slice()) {
        let stem = slice_subrange(word.as_slice(), 0, word.len() - suffix_chars.len());
        if condition(stem) {
            replace_suffix(word, suffix, replacement);
            true
        } else {
            false
        }
    } else {
        false
    }
}


/// Whether the last character of `w` is `c`.
pub open spec fn last_is(w: Seq<char>, c: char) -> bool {
    w.len() > 0 && w.last() == c
}

/// What a measure rule makes of a word that ends with its suffix: the
/// suffix is replaced where what stands before it has a measure above
/// `min`, and the word is left as it is otherwise.
pub open spec fn rewritten(
    w: Seq<char>,
    suffix: Seq<char>,
    replacement: Seq<char>,
    min: nat,
) -> Seq<char> {
    if measure_of(stem_before(w, suffix)) > min {
        replaced(w, suffix, replacement)
    } else {
        w
    }
}

/// Plural endings: `sses` to `ss`, `ies` to `i`, `ss` kept, and any other
/// final `s` dropped.
pub open spec fn step_1a_of(w: Seq<char>) -> Seq<char> {
    if ends_with(w, "sses"@) {
        replaced(w, "sses"@, "ss"@)
    } else if ends_with(w, "ies"@) {
        replaced(w, "ies"@, "i"@)
    } else if ends_with(w, "ss"@) {
        w
    } else if last_is(w, 's') {
        w.drop_last()
    } else {
        w
    }
}

/// What is left of `w` once an `ed` or `ing` ending is removed, if one is:
/// the ending is removed only from a stem that contains a vowel.
pub open spec fn participle_stem(w: Seq<char>) -> Option<Seq<char>> {
    if ends_with(w, "ed"@) {
        if contains_vowel(stem_before(w, "ed"@)) {
            Some(stem_before(w, "ed"@))
        } else {
            None
        }
    } else if ends_with(w, "ing"@) {
        if contains_vowel(stem_before(w, "ing"@)) {
            Some(stem_before(w, "ing"@))
        } else {
            None
        }
    } else {
        None
    }
}

/// Whether `w` ends in a doubled consonant other than `l`, `s` or `z`.
pub open spec fn removable_double(w: Seq<char>) -> bool {
    let n = w.len() as int;
    n >= 2 && w[n - 1] == w[n - 2] && !vowel_at(w, n - 1) && w[n - 1] != 'l' && w[n - 1] != 's'
        && w[n - 1] != 'z'
}

/// The repair of a stem that lost `ed` or `ing`: `at`, `bl`, `iz` gain an
/// `e`; else a doubled consonant is made single; else a short stem of
/// measure one gains an `e`.
pub open spec fn tidied(w: Seq<char>) -> Seq<char> {
    if ends_with(w, "at"@) {
        replaced(w, "at"@, "ate"@)
    } else if ends_with(w, "bl"@) {
        replaced(w, "bl"@, "ble"@)
    } else if ends_with(w, "iz"@) {
        replaced(w, "iz"@, "ize"@)
    } else if removable_double(w) {
        w.drop_last()
    } else if measure_of(w) == 1 && cvc_end(w) {
        w.push('e')
    } else {
        w
    }
}

/// Past and progressive endings. A word that ends with `eed` is decided
/// by that ending alone: it becomes `ee` after a stem of positive measure
/// and the word stays otherwise. Any other word loses `ed` or `ing` after
/// a stem with a vowel, and the stem is tidied.
pub open spec fn step_1b_of(w: Seq<char>) -> Seq<char> {
    if ends_with(w, "eed"@) {
        rewritten(w, "eed"@, "ee"@, 0)
    } else {
        match participle_stem(w) {
            Some(stem) => tidied(stem),
            None => w,
        }
    }
}

/// A final `y` becomes `i` when a vowel stands before it.
pub open spec fn step_1c_of(w: Seq<char>) -> Seq<char> {
    if last_is(w, 'y') && contains_vowel(w.drop_last()) {
        w.drop_last().push('i')
    } else {
        w
    }
}

/// Double suffixes mapped to single ones. The first suffix in the order
/// written that the word ends with decides alone: it is replaced after a
/// stem of positive measure, and no other suffix is tried.
pub open spec fn step_2_of(w: Seq<char>) -> Seq<char> {
    if ends_with(w, "ational"@) {
        rewritten(w, "ational"@, "ate"@, 0)
    } else if ends_with(w, "tional"@) {
        rewritten(w, "tional"@, "tion"@, 0)
    } else if ends_with(w, "enci"@) {
        rewritten(w, "enci"@, "ence"@, 0)
    } else if ends_with(w, "anci"@) {
        rewritten(w, "anci"@, "ance"@, 0)
    } else if ends_with(w, "izer"@) {
        rewritten(w, "izer"@, "ize"@, 0)
    } else if ends_with(w, "abli"@) {
        rewritten(w, "abli"@, "able"@, 0)
    } else if ends_with(w, "alli"@) {
        rewritten(w, "alli"@, "al"@, 0)
    } else if ends_with(w, "entli"@) {
        rewritten(w, "entli"@, "ent"@, 0)
    } else if ends_with(w, "eli"@) {
        rewritten(w, "eli"@, "e"@, 0)
    } else if ends_with(w, "ousli"@) {
        rewritten(w, "ousli"@, "ous"@, 0)
    } else if ends_with(w, "ization"@) {
        rewritten(w, "ization"@, "ize"@, 0)
    } else if ends_with(w, "ation"@) {
        rewritten(w, "ation"@, "ate"@, 0)
    } else if ends_with(w, "ator"@) {
        rewritten(w, "ator"@, "ate"@, 0)
    } else if ends_with(w, "alism"@) {
        rewritten(w, "alism"@, "al"@, 0)
    } else if ends_with(w, "iveness"@) {
        rewritten(w, "iveness"@, "ive"@, 0)
    } else if ends_with(w, "fulness"@) {
        rewritten(w, "fulness"@, "ful"@, 0)
    } else if ends_with(w, "ousness"@) {
        rewritten(w, "ousness"@, "ous"@, 0)
    } else if ends_with(w, "aliti"@) {
        rewritten(w, "aliti"@, "al"@, 0)
    } else if ends_with(w, "iviti"@) {
        rewritten(w, "iviti"@, "ive"@, 0)
    } else if ends_with(w, "biliti"@) {
        rewritten(w, "biliti"@, "ble"@, 0)
    } else {
        w
    }
}

/// Endings such as `icate`, `ful`, `ness`. The first suffix in the order
/// written that the word ends with decides alone.
pub open spec fn step_3_of(w: Seq<char>) -> Seq<char> {
    if ends_with(w, "icate"@) {
        rewritten(w, "icate"@, "ic"@, 0)
    } else if ends_with(w, "ative"@) {
        rewritten(w, "ative"@, ""@, 0)
    } else if ends_with(w, "alize"@) {
        rewritten(w, "alize"@, "al"@, 0)
    } else if ends_with(w, "iciti"@) {
        rewritten(w, "iciti"@, "ic"@, 0)
    } else if ends_with(w, "ical"@) {
        rewritten(w, "ical"@, "ic"@, 0)
    } else if ends_with(w, "ful"@) {
        rewritten(w, "ful"@, ""@, 0)
    } else if ends_with(w, "ness"@) {
        rewritten(w, "ness"@, ""@, 0)
    } else {
        w
    }
}

/// Whether `ion` may be removed from behind `stem`: the stem ends in `s`
/// or `t` and has a measure above one.
pub open spec fn ion_applies(stem: Seq<char>) -> bool {
    (last_is(stem, 's') || last_is(stem, 't')) && measure_of(stem) > 1
}

/// Residual suffixes, removed after a stem of measure above one. The
/// first suffix in the order written that the word ends with decides
/// alone; `ion` needs a stem that ends in `s` or `t` besides.
pub open spec fn step_4_of(w: Seq<char>) -> Seq<char> {
    if ends_with(w, "al"@) {
        rewritten(w, "al"@, ""@, 1)
    } else if ends_with(w, "ance"@) {
        rewritten(w, "ance"@, ""@, 1)
    } else if ends_with(w, "ence"@) {
        rewritten(w, "ence"@, ""@, 1)
    } else if ends_with(w, "er"@) {
        rewritten(w, "er"@, ""@, 1)
    } else if ends_with(w, "ic"@) {
        rewritten(w, "ic"@, ""@, 1)
    } else if ends_with(w, "able"@) {
        rewritten(w, "able"@, ""@, 1)
    } else if ends_with(w, "ible"@) {
        rewritten(w, "ible"@, ""@, 1)
    } else if ends_with(w, "ant"@) {
        rewritten(w, "ant"@, ""@, 1)
    } else if ends_with(w, "ement"@) {
        rewritten(w, "ement"@, ""@, 1)
    } else if ends_with(w, "ment"@) {
        rewritten(w, "ment"@, ""@, 1)
    } else if ends_with(w, "ent"@) {
        rewritten(w, "ent"@, ""@, 1)
    } else if ends_with(w, "ou"@) {
        rewritten(w, "ou"@, ""@, 1)
    } else if ends_with(w, "ism"@) {
        rewritten(w, "ism"@, ""@, 1)
    } else if ends_with(w, "ate"@) {
        rewritten(w, "ate"@, ""@, 1)
    } else if ends_with(w, "iti"@) {
        rewritten(w, "iti"@, ""@, 1)
    } else if ends_with(w, "ous"@) {
        rewritten(w, "ous"@, ""@, 1)
    } else if ends_with(w, "ive"@) {
        rewritten(w, "ive"@, ""@, 1)
    } else if ends_with(w, "ize"@) {
        rewritten(w, "ize"@, ""@, 1)
    } else if ends_with(w, "ion"@) {
        if ion_applies(stem_before(w, "ion"@)) {
            stem_before(w, "ion"@)
        } else {
            w
        }
    } else {
        w
    }
}

/// Whether `s` is one of the suffixes that the fourth step removes.
pub open spec fn is_residual_suffix(s: Seq<char>) -> bool {
    s == "al"@
        || s == "ance"@
        || s == "ence"@
        || s == "er"@
        || s == "ic"@
        || s == "able"@
        || s == "ible"@
        || s == "ant"@
        || s == "ement"@
        || s == "ment"@
        || s == "ent"@
        || s == "ou"@
        || s == "ism"@
        || s == "ate"@
        || s == "iti"@
        || s == "ous"@
        || s == "ive"@
        || s == "ize"@
        || s == "ion"@
}

/// A final `e` is dropped after a stem of measure above one, or of measure
/// one that does not end consonant-vowel-consonant.
pub open spec fn step_5a_of(w: Seq<char>) -> Seq<char> {
    let stem = w.drop_last();
    if last_is(w, 'e') && (measure_of(stem) > 1 || (measure_of(stem) == 1 && !cvc_end(stem))) {
        stem
    } else {
        w
    }
}

/// A final double `l` is made single in a word of measure above one.
pub open spec fn step_5b_of(w: Seq<char>) -> Seq<char> {
    if w.len() >= 2 && measure_of(w) > 1 && w[w.len() - 1] == 'l' && w[w.len() - 2] == 'l' {
        w.drop_last()
    } else {
        w
    }
}

/// The stem of a lower-case word: words of one or two characters are their
/// own stem; longer ones pass through the eight steps in order.
pub open spec fn stem_of(w: Seq<char>) -> Seq<char> {
    if w.len() <= 2 {
        w
    } else {
        step_5b_of(
            step_5a_of(step_4_of(step_3_of(step_2_of(step_1c_of(step_1b_of(step_1a_of(w))))))),
        )
    }
}

/// Whether no step fires on `w`: the word has at most two characters, or
/// each of the eight steps leaves it as it is. These are the words that
/// stemming does not change any more.
pub open spec fn settled(w: Seq<char>) -> bool {
    w.len() <= 2 || (step_1a_of(w) == w && step_1b_of(w) == w && step_1c_of(w) == w && step_2_of(w)
        == w && step_3_of(w) == w && step_4_of(w) == w && step_5a_of(w) == w && step_5b_of(w) == w)
}

/// A settled word is its own stem.
pub proof fn lemma_settled_is_fixed(w: Seq<char>)
    requires
        settled(w),
    ensures
        stem_of(w) == w,
{
}

/// Stemming is idempotent wherever the stem is settled: a second pass
/// changes a stem only if one of the steps still fires on it.
pub proof fn lemma_stem_idempotent(w: Seq<char>)
    requires
        settled(stem_of(w)),
    ensures
        stem_of(stem_of(w)) == stem_of(w),
{
    lemma_settled_is_fixed(stem_of(w));
}

/// A word that ends with a suffix is what stands before it, followed by
/// the suffix.
pub proof fn lemma_suffix_split(w: Seq<char>, suffix: Seq<char>)
    requires
        ends_with(w, suffix),
    ensures
        w == stem_before(w, suffix) + suffix,
        replaced(w, suffix, Seq::<char>::empty()) == stem_before(w, suffix),
{
    assert(w =~= stem_before(w, suffix) + suffix);
    assert(replaced(w, suffix, Seq::<char>::empty()) =~= stem_before(w, suffix));
}

/// Where the fourth step gives what stands before a suffix of its list,
/// and that has a measure above one, the step has removed a suffix from a
/// stem of measure above one.
proof fn lemma_residual_removed(w: Seq<char>, suffix: Seq<char>)
    requires
        is_residual_suffix(suffix),
        ends_with(w, suffix),
        measure_of(stem_before(w, suffix)) > 1,
        step_4_of(w) == stem_before(w, suffix),
    ensures
        measure_of(step_4_of(w)) > 1,
        exists|s: Seq<char>|
            is_residual_suffix(s) && #[trigger] ends_with(w, s) && w == step_4_of(w) + s,
{
    lemma_suffix_split(w, suffix);
}

/// The fourth step leaves a word as it is, or removes one of its suffixes
/// from a stem of measure above one.
pub proof fn lemma_step_4_keeps_long_stems(w: Seq<char>)
    ensures
        step_4_of(w) == w || (measure_of(step_4_of(w)) > 1 && exists|s: Seq<char>|
            is_residual_suffix(s) && #[trigger] ends_with(w, s) && w == step_4_of(w) + s),
{
    reveal_strlit("");
    assert(""@ =~= Seq::<char>::empty());
    if step_4_of(w) != w {
        if ends_with(w, "al"@) {
            lemma_suffix_split(w, "al"@);
            lemma_residual_removed(w, "al"@);
        } else if ends_with(w, "ance"@) {
            lemma_suffix_split(w, "ance"@);
            lemma_residual_removed(w, "ance"@);
        } else if ends_with(w, "ence"@) {
            lemma_suffix_split(w, "ence"@);
            lemma_residual_removed(w, "ence"@);
        } else if ends_with(w, "er"@) {
            lemma_suffix_split(w, "er"@);
            lemma_residual_removed(w, "er"@);
        } else if ends_with(w, "ic"@) {
            lemma_suffix_split(w, "ic"@);
            lemma_residual_removed(w, "ic"@);
        } else if ends_with(w, "able"@) {
            lemma_suffix_split(w, "able"@);
            lemma_residual_removed(w, "able"@);
        } else if ends_with(w, "ible"@) {
            lemma_suffix_split(w, "ible"@);
            lemma_residual_removed(w, "ible"@);
        } else if ends_with(w, "ant"@) {
            lemma_suffix_split(w, "ant"@);
            lemma_residual_removed(w, "ant"@);
        } else if ends_with(w, "ement"@) {
            lemma_suffix_split(w, "ement"@);
            lemma_residual_removed(w, "ement"@);
        } else if ends_with(w, "ment"@) {
            lemma_suffix_split(w, "ment"@);
            lemma_residual_removed(w, "ment"@);
        } else if ends_with(w, "ent"@) {
            lemma_suffix_split(w, "ent"@);
            lemma_residual_removed(w, "ent"@);
        } else if ends_with(w, "ou"@) {
            lemma_suffix_split(w, "ou"@);
            lemma_residual_removed(w, "ou"@);
        } else if ends_with(w, "ism"@) {
            lemma_suffix_split(w, "ism"@);
            lemma_residual_removed(w, "ism"@);
        } else if ends_with(w, "ate"@) {
            lemma_suffix_split(w, "ate"@);
            lemma_residual_removed(w, "ate"@);
        } else if ends_with(w, "iti"@) {
            lemma_suffix_split(w, "iti"@);
            lemma_residual_removed(w, "iti"@);
        } else if ends_with(w, "ous"@) {
            lemma_suffix_split(w, "ous"@);
            lemma_residual_removed(w, "ous"@);
        } else if ends_with(w, "ive"@) {
            lemma_suffix_split(w, "ive"@);
            lemma_residual_removed(w, "ive"@);
        } else if ends_with(w, "ize"@) {
            lemma_suffix_split(w, "ize"@);
            lemma_residual_removed(w, "ize"@);
        } else if ends_with(w, "ion"@) {
            lemma_suffix_split(w, "ion"@);
            lemma_residual_removed(w, "ion"@);
        }
    }
}

/// The first step leaves a word as it is or makes it shorter.
pub proof fn lemma_step_1a_shortens(w: Seq<char>)
    ensures
        step_1a_of(w) == w || step_1a_of(w).len() < w.len(),
{
    reveal_strlit("sses");
    reveal_strlit("ss");
    reveal_strlit("ies");
    reveal_strlit("i");
}

/// Tidying makes a stem longer by one character at most.
proof fn lemma_tidied_length(w: Seq<char>)
    ensures
        tidied(w).len() <= w.len() + 1,
{
    reveal_strlit("at");
    reveal_strlit("ate");
    reveal_strlit("bl");
    reveal_strlit("ble");
    reveal_strlit("iz");
    reveal_strlit("ize");
}

/// The second step leaves a word as it is or makes it shorter.
pub proof fn lemma_step_1b_shortens(w: Seq<char>)
    ensures
        step_1b_of(w) == w || step_1b_of(w).len() < w.len(),
{
    reveal_strlit("eed");
    reveal_strlit("ee");
    reveal_strlit("ed");
    reveal_strlit("ing");
    match participle_stem(w) {
        Some(stem) => {
            lemma_tidied_length(stem);
        },
        None => {},
    }
}

/// The third step leaves a word as it is or turns its final `y` into `i`.
pub proof fn lemma_step_1c_keeps_length(w: Seq<char>)
    ensures
        step_1c_of(w) == w || (step_1c_of(w).len() == w.len() && last_is(w, 'y') && last_is(
            step_1c_of(w),
            'i',
        )),
{
}

/// A word that ends with a suffix ends with the last character of the
/// suffix, and with that of the replacement once the suffix is replaced.
proof fn lemma_last_of_replaced(w: Seq<char>, suffix: Seq<char>, replacement: Seq<char>)
    requires
        ends_with(w, suffix),
        suffix.len() > 0,
        replacement.len() > 0,
    ensures
        w.last() == suffix.last(),
        replaced(w, suffix, replacement).last() == replacement.last(),
        replaced(w, suffix, replacement).len() == w.len() - suffix.len() + replacement.len(),
{
    assert(w.subrange(w.len() - suffix.len(), w.len() as int)[suffix.len() - 1] == w.last());
}

/// The step of the double suffixes leaves a word as it is, makes it
/// shorter, or turns its final `i` into `e`.
pub proof fn lemma_step_2_shortens(w: Seq<char>)
    ensures
        step_2_of(w) == w || step_2_of(w).len() < w.len() || (step_2_of(w).len() == w.len()
            && last_is(w, 'i') && last_is(step_2_of(w), 'e')),
{
    reveal_strlit("ational");
    reveal_strlit("ate");
    reveal_strlit("tional");
    reveal_strlit("tion");
    reveal_strlit("enci");
    reveal_strlit("ence");
    reveal_strlit("anci");
    reveal_strlit("ance");
    reveal_strlit("izer");
    reveal_strlit("ize");
    reveal_strlit("abli");
    reveal_strlit("able");
    reveal_strlit("alli");
    reveal_strlit("al");
    reveal_strlit("entli");
    reveal_strlit("ent");
    reveal_strlit("eli");
    reveal_strlit("e");
    reveal_strlit("ousli");
    reveal_strlit("ous");
    reveal_strlit("ization");
    reveal_strlit("ation");
    reveal_strlit("ator");
    reveal_strlit("alism");
    reveal_strlit("iveness");
    reveal_strlit("ive");
    reveal_strlit("fulness");
    reveal_strlit("ful");
    reveal_strlit("ousness");
    reveal_strlit("aliti");
    reveal_strlit("iviti");
    reveal_strlit("biliti");
    reveal_strlit("ble");
    if ends_with(w, "enci"@) {
        lemma_last_of_replaced(w, "enci"@, "ence"@);
    }
    if ends_with(w, "anci"@) {
        lemma_last_of_replaced(w, "anci"@, "ance"@);
    }
    if ends_with(w, "abli"@) {
        lemma_last_of_replaced(w, "abli"@, "able"@);
    }
}

/// The step after it leaves a word as it is or makes it shorter.
pub proof fn lemma_step_3_shortens(w: Seq<char>)
    ensures
        step_3_of(w) == w || step_3_of(w).len() < w.len(),
{
    reveal_strlit("icate");
    reveal_strlit("ic");
    reveal_strlit("ative");
    reveal_strlit("");
    reveal_strlit("alize");
    reveal_strlit("al");
    reveal_strlit("iciti");
    reveal_strlit("ical");
    reveal_strlit("ful");
    reveal_strlit("ness");
}

/// The step of the residual suffixes leaves a word as it is or makes it
/// shorter.
pub proof fn lemma_step_4_shortens(w: Seq<char>)
    ensures
        step_4_of(w) == w || step_4_of(w).len() < w.len(),
{
    reveal_strlit("al");
    reveal_strlit("ance");
    reveal_strlit("ence");
    reveal_strlit("er");
    reveal_strlit("ic");
    reveal_strlit("able");
    reveal_strlit("ible");
    reveal_strlit("ant");
    reveal_strlit("ement");
    reveal_strlit("ment");
    reveal_strlit("ent");
    reveal_strlit("ou");
    reveal_strlit("ism");
    reveal_strlit("ate");
    reveal_strlit("iti");
    reveal_strlit("ous");
    reveal_strlit("ive");
    reveal_strlit("ize");
    reveal_strlit("ion");
    reveal_strlit("");
}

/// The last two steps leave a word as it is or make it shorter.
pub proof fn lemma_step_5_shortens(w: Seq<char>)
    ensures
        step_5a_of(w) == w || step_5a_of(w).len() < w.len(),
        step_5b_of(w) == w || step_5b_of(w).len() < w.len(),
{
}

/// A stem is no longer than its word.
pub proof fn lemma_stem_no_longer(w: Seq<char>)
    ensures
        stem_of(w).len() <= w.len(),
{
    if w.len() > 2 {
        let w1 = step_1a_of(w);
        let w2 = step_1b_of(w1);
        let w3 = step_1c_of(w2);
        let w4 = step_2_of(w3);
        let w5 = step_3_of(w4);
        let w6 = step_4_of(w5);
        let w7 = step_5a_of(w6);
        lemma_step_1a_shortens(w);
        lemma_step_1b_shortens(w1);
        lemma_step_1c_keeps_length(w2);
        lemma_step_2_shortens(w3);
        lemma_step_3_shortens(w4);
        lemma_step_4_shortens(w5);
        lemma_step_5_shortens(w6);
        lemma_step_5_shortens(w7);
    }
}

/// A word on which a step fires is changed by stemming: no later step
/// undoes what an earlier one did.
pub proof fn lemma_unsettled_words_change(w: Seq<char>)
    requires
        !settled(w),
    ensures
        stem_of(w) != w,
{
    let w1 = step_1a_of(w);
    let w2 = step_1b_of(w1);
    let w3 = step_1c_of(w2);
    let w4 = step_2_of(w3);
    let w5 = step_3_of(w4);
    let w6 = step_4_of(w5);
    let w7 = step_5a_of(w6);
    let w8 = step_5b_of(w7);
    lemma_step_1a_shortens(w);
    lemma_step_1b_shortens(w1);
    lemma_step_1c_keeps_length(w2);
    lemma_step_2_shortens(w3);
    lemma_step_3_shortens(w4);
    lemma_step_4_shortens(w5);
    lemma_step_5_shortens(w6);
    lemma_step_5_shortens(w7);
    assert(stem_of(w) == w8);
    if w8 == w {
        assert(w1 == w);
        assert(w2 == w);
        assert(w5 == w4 && w6 == w4 && w7 == w4 && w8 == w4);
        assert(w3 == w);
        assert(w4 == w);
    }
}

/// Stemming is idempotent on a word exactly when its stem is settled.
pub proof fn lemma_idempotent_iff_settled(w: Seq<char>)
    ensures
        stem_of(stem_of(w)) == stem_of(w) <==> settled(stem_of(w)),
{
    if settled(stem_of(w)) {
        lemma_settled_is_fixed(stem_of(w));
    } else {
        lemma_unsettled_words_change(stem_of(w));
    }
}

/// Whether `a` and `b` agree on their first `n` characters, as far as
/// both have them.
pub open spec fn agree_before(a: Seq<char>, b: Seq<char>, n: int) -> bool {
    forall|i: int| 0 <= i < n && i < a.len() && i < b.len() ==> a[i] == b[i]
}

/// A word with a suffix replaced agrees with the word on what stands
/// before the suffix and on as many characters more as the suffix and the
/// replacement start with in common.
proof fn lemma_replaced_prefix(
    w: Seq<char>,
    suffix: Seq<char>,
    replacement: Seq<char>,
    shared: int,
)
    requires
        ends_with(w, suffix),
        0 <= shared <= suffix.len(),
        shared <= replacement.len(),
        forall|j: int| 0 <= j < shared ==> suffix[j] == replacement[j],
    ensures
        agree_before(replaced(w, suffix, replacement), w, w.len() - suffix.len() + shared),
        replaced(w, suffix, replacement).len() == w.len() - suffix.len() + replacement.len(),
        agree_before(stem_before(w, suffix), w, w.len() - suffix.len()),
{
    let r = replaced(w, suffix, replacement);
    let n = w.len() - suffix.len();
    assert forall|i: int| 0 <= i < n + shared && i < r.len() && i < w.len() implies r[i]
        == w[i] by {
        if i >= n {
            assert(w.subrange(n, w.len() as int)[i - n] == w[i]);
        }
    }
}

/// The first step gives a word that agrees with the one it was given on
/// all its characters.
proof fn lemma_step_1a_prefix(w: Seq<char>)
    ensures
        agree_before(step_1a_of(w), w, step_1a_of(w).len() as int),
{
    reveal_strlit("sses");
    reveal_strlit("ss");
    reveal_strlit("ies");
    reveal_strlit("i");
    if ends_with(w, "sses"@) {
        lemma_replaced_prefix(w, "sses"@, "ss"@, 2);
    } else if ends_with(w, "ies"@) {
        lemma_replaced_prefix(w, "ies"@, "i"@, 1);
    }
}

/// The second step gives a word that agrees with the one it was given on
/// all its characters but the last.
proof fn lemma_step_1b_prefix(w: Seq<char>)
    ensures
        agree_before(step_1b_of(w), w, step_1b_of(w).len() - 1),
{
    reveal_strlit("eed");
    reveal_strlit("ee");
    reveal_strlit("ed");
    reveal_strlit("ing");
    reveal_strlit("at");
    reveal_strlit("ate");
    reveal_strlit("bl");
    reveal_strlit("ble");
    reveal_strlit("iz");
    reveal_strlit("ize");
    if ends_with(w, "eed"@) {
        lemma_replaced_prefix(w, "eed"@, "ee"@, 2);
    } else {
        match participle_stem(w) {
            Some(stem) => {
                assert(agree_before(stem, w, stem.len() as int));
                if ends_with(stem, "at"@) {
                    lemma_replaced_prefix(stem, "at"@, "ate"@, 2);
                } else if ends_with(stem, "bl"@) {
                    lemma_replaced_prefix(stem, "bl"@, "ble"@, 2);
                } else if ends_with(stem, "iz"@) {
                    lemma_replaced_prefix(stem, "iz"@, "ize"@, 2);
                }
            },
            None => {},
        }
    }
}

/// The step of the double suffixes gives a word that agrees with the one
/// it was given on all its characters but the last two.
proof fn lemma_step_2_prefix(w: Seq<char>)
    ensures
        agree_before(step_2_of(w), w, step_2_of(w).len() - 2),
{
    if ends_with(w, "ational"@) {
        reveal_strlit("ational");
        reveal_strlit("ate");
        lemma_replaced_prefix(w, "ational"@, "ate"@, 2);
    } else if ends_with(w, "tional"@) {
        reveal_strlit("tional");
        reveal_strlit("tion");
        lemma_replaced_prefix(w, "tional"@, "tion"@, 4);
    } else if ends_with(w, "enci"@) {
        reveal_strlit("enci");
        reveal_strlit("ence");
        lemma_replaced_prefix(w, "enci"@, "ence"@, 3);
    } else if ends_with(w, "anci"@) {
        reveal_strlit("anci");
        reveal_strlit("ance");
        lemma_replaced_prefix(w, "anci"@, "ance"@, 3);
    } else if ends_with(w, "izer"@) {
        reveal_strlit("izer");
        reveal_strlit("ize");
        lemma_replaced_prefix(w, "izer"@, "ize"@, 3);
    } else if ends_with(w, "abli"@) {
        reveal_strlit("abli");
        reveal_strlit("able");
        lemma_replaced_prefix(w, "abli"@, "able"@, 3);
    } else if ends_with(w, "alli"@) {
        reveal_strlit("alli");
        reveal_strlit("al");
        lemma_replaced_prefix(w, "alli"@, "al"@, 2);
    } else if ends_with(w, "entli"@) {
        reveal_strlit("entli");
        reveal_strlit("ent");
        lemma_replaced_prefix(w, "entli"@, "ent"@, 3);
    } else if ends_with(w, "eli"@) {
        reveal_strlit("eli");
        reveal_strlit("e");
        lemma_replaced_prefix(w, "eli"@, "e"@, 1);
    } else if ends_with(w, "ousli"@) {
        reveal_strlit("ousli");
        reveal_strlit("ous");
        lemma_replaced_prefix(w, "ousli"@, "ous"@, 3);
    } else if ends_with(w, "ization"@) {
        reveal_strlit("ization");
        reveal_strlit("ize");
        lemma_replaced_prefix(w, "ization"@, "ize"@, 2);
    } else if ends_with(w, "ation"@) {
        reveal_strlit("ation");
        reveal_strlit("ate");
        lemma_replaced_prefix(w, "ation"@, "ate"@, 2);
    } else if ends_with(w, "ator"@) {
        reveal_strlit("ator");
        reveal_strlit("ate");
        lemma_replaced_prefix(w, "ator"@, "ate"@, 2);
    } else if ends_with(w, "alism"@) {
        reveal_strlit("alism");
        reveal_strlit("al");
        lemma_replaced_prefix(w, "alism"@, "al"@, 2);
    } else if ends_with(w, "iveness"@) {
        reveal_strlit("iveness");
        reveal_strlit("ive");
        lemma_replaced_prefix(w, "iveness"@, "ive"@, 3);
    } else if ends_with(w, "fulness"@) {
        reveal_strlit("fulness");
        reveal_strlit("ful");
        lemma_replaced_prefix(w, "fulness"@, "ful"@, 3);
    } else if ends_with(w, "ousness"@) {
        reveal_strlit("ousness");
        reveal_strlit("ous");
        lemma_replaced_prefix(w, "ousness"@, "ous"@, 3);
    } else if ends_with(w, "aliti"@) {
        reveal_strlit("aliti");
        reveal_strlit("al");
        lemma_replaced_prefix(w, "aliti"@, "al"@, 2);
    } else if ends_with(w, "iviti"@) {
        reveal_strlit("iviti");
        reveal_strlit("ive");
        lemma_replaced_prefix(w, "iviti"@, "ive"@, 2);
    } else if ends_with(w, "biliti"@) {
        reveal_strlit("biliti");
        reveal_strlit("ble");
        lemma_replaced_prefix(w, "biliti"@, "ble"@, 1);
    }
}

/// The step after it gives a word that agrees with the one it was given
/// on all its characters.
proof fn lemma_step_3_prefix(w: Seq<char>)
    ensures
        agree_before(step_3_of(w), w, step_3_of(w).len() as int),
{
    if ends_with(w, "icate"@) {
        reveal_strlit("icate");
        reveal_strlit("ic");
        lemma_replaced_prefix(w, "icate"@, "ic"@, 2);
    } else if ends_with(w, "ative"@) {
        reveal_strlit("ative");
        reveal_strlit("");
        lemma_replaced_prefix(w, "ative"@, ""@, 0);
    } else if ends_with(w, "alize"@) {
        reveal_strlit("alize");
        reveal_strlit("al");
        lemma_replaced_prefix(w, "alize"@, "al"@, 2);
    } else if ends_with(w, "iciti"@) {
        reveal_strlit("iciti");
        reveal_strlit("ic");
        lemma_replaced_prefix(w, "iciti"@, "ic"@, 2);
    } else if ends_with(w, "ical"@) {
        reveal_strlit("ical");
        reveal_strlit("ic");
        lemma_replaced_prefix(w, "ical"@, "ic"@, 2);
    } else if ends_with(w, "ful"@) {
        reveal_strlit("ful");
        reveal_strlit("");
        lemma_replaced_prefix(w, "ful"@, ""@, 0);
    } else if ends_with(w, "ness"@) {
        reveal_strlit("ness");
        reveal_strlit("");
        lemma_replaced_prefix(w, "ness"@, ""@, 0);
    }
}

/// The step of the residual suffixes gives a word that agrees with the
/// one it was given on all its characters.
proof fn lemma_step_4_prefix(w: Seq<char>)
    ensures
        agree_before(step_4_of(w), w, step_4_of(w).len() as int),
{
    reveal_strlit("");
    if ends_with(w, "al"@) {
        reveal_strlit("al");
        reveal_strlit("");
        lemma_replaced_prefix(w, "al"@, ""@, 0);
    } else if ends_with(w, "ance"@) {
        reveal_strlit("ance");
        reveal_strlit("");
        lemma_replaced_prefix(w, "ance"@, ""@, 0);
    } else if ends_with(w, "ence"@) {
        reveal_strlit("ence");
        reveal_strlit("");
        lemma_replaced_prefix(w, "ence"@, ""@, 0);
    } else if ends_with(w, "er"@) {
        reveal_strlit("er");
        reveal_strlit("");
        lemma_replaced_prefix(w, "er"@, ""@, 0);
    } else if ends_with(w, "ic"@) {
        reveal_strlit("ic");
        reveal_strlit("");
        lemma_replaced_prefix(w, "ic"@, ""@, 0);
    } else if ends_with(w, "able"@) {
        reveal_strlit("able");
        reveal_strlit("");
        lemma_replaced_prefix(w, "able"@, ""@, 0);
    } else if ends_with(w, "ible"@) {
        reveal_strlit("ible");
        reveal_strlit("");
        lemma_replaced_prefix(w, "ible"@, ""@, 0);
    } else if ends_with(w, "ant"@) {
        reveal_strlit("ant");
        reveal_strlit("");
        lemma_replaced_prefix(w, "ant"@, ""@, 0);
    } else if ends_with(w, "ement"@) {
        reveal_strlit("ement");
        reveal_strlit("");
        lemma_replaced_prefix(w, "ement"@, ""@, 0);
    } else if ends_with(w, "ment"@) {
        reveal_strlit("ment");
        reveal_strlit("");
        lemma_replaced_prefix(w, "ment"@, ""@, 0);
    } else if ends_with(w, "ent"@) {
        reveal_strlit("ent");
        reveal_strlit("");
        lemma_replaced_prefix(w, "ent"@, ""@, 0);
    } else if ends_with(w, "ou"@) {
        reveal_strlit("ou");
        reveal_strlit("");
        lemma_replaced_prefix(w, "ou"@, ""@, 0);
    } else if ends_with(w, "ism"@) {
        reveal_strlit("ism");
        reveal_strlit("");
        lemma_replaced_prefix(w, "ism"@, ""@, 0);
    } else if ends_with(w, "ate"@) {
        reveal_strlit("ate");
        reveal_strlit("");
        lemma_replaced_prefix(w, "ate"@, ""@, 0);
    } else if ends_with(w, "iti"@) {
        reveal_strlit("iti");
        reveal_strlit("");
        lemma_replaced_prefix(w, "iti"@, ""@, 0);
    } else if ends_with(w, "ous"@) {
        reveal_strlit("ous");
        reveal_strlit("");
        lemma_replaced_prefix(w, "ous"@, ""@, 0);
    } else if ends_with(w, "ive"@) {
        reveal_strlit("ive");
        reveal_strlit("");
        lemma_replaced_prefix(w, "ive"@, ""@, 0);
    } else if ends_with(w, "ize"@) {
        reveal_strlit("ize");
        reveal_strlit("");
        lemma_replaced_prefix(w, "ize"@, ""@, 0);
    } else if ends_with(w, "ion"@) {
        reveal_strlit("ion");
        lemma_replaced_prefix(w, "ion"@, ""@, 0);
    }
}

/// A stem agrees with its word on all its characters but the last two:
/// stemming changes the end of a word only.
pub proof fn lemma_stem_shares_prefix(w: Seq<char>)
    ensures
        stem_of(w).len() <= w.len(),
        forall|i: int| 0 <= i < stem_of(w).len() - 2 ==> stem_of(w)[i] == w[i],
{
    lemma_stem_no_longer(w);
    if w.len() > 2 {
        let w1 = step_1a_of(w);
        let w2 = step_1b_of(w1);
        let w3 = step_1c_of(w2);
        let w4 = step_2_of(w3);
        let w5 = step_3_of(w4);
        let w6 = step_4_of(w5);
        let w7 = step_5a_of(w6);
        let w8 = step_5b_of(w7);
        lemma_step_1a_shortens(w);
        lemma_step_1b_shortens(w1);
        lemma_step_1c_keeps_length(w2);
        lemma_step_2_shortens(w3);
        lemma_step_3_shortens(w4);
        lemma_step_4_shortens(w5);
        lemma_step_5_shortens(w6);
        lemma_step_5_shortens(w7);
        lemma_step_1a_prefix(w);
        lemma_step_1b_prefix(w1);
        lemma_step_2_prefix(w3);
        lemma_step_3_prefix(w4);
        lemma_step_4_prefix(w5);
        assert(agree_before(w2, w, w2.len() - 1));
        assert(agree_before(w3, w2, w3.len() - 1));
        assert(agree_before(w3, w, w3.len() - 1));
        assert(agree_before(w4, w, w4.len() - 2));
        assert(agree_before(w5, w, w5.len() - 2));
        assert(agree_before(w6, w, w6.len() - 2));
        assert(agree_before(w7, w6, w7.len() as int));
        assert(agree_before(w8, w7, w8.len() as int));
        assert(agree_before(w8, w, w8.len() - 2));
    }
}

/// The measure of a word is below its length, unless both are zero.
pub proof fn lemma_measure_bound(w: Seq<char>, n: int)
    ensures
        measure_upto(w, n) <= if n >= 1 { n - 1 } else { 0 },
    decreases n,
{
    if n > 1 {
        lemma_measure_bound(w, n - 1);
    }
}

/// Applies a measure rule: where the word ends with `suffix`, replaces it
/// by `replacement` if what stands before it has a measure above `min`.
/// Tells whether the word ends with the suffix, replaced or not.
fn apply_rule(word: &mut Vec<char>, suffix: &str, replacement: &str, min: usize) -> (matched: bool)
    ensures
        matched == ends_with(old(word)@, suffix@),
        matched ==> final(word)@ == rewritten(old(word)@, suffix@, replacement@, min as nat),
        !matched ==> final(word)@ == old(word)@,
{
    let suffix_chars = chars_of(suffix);
    if !has_suffix(word.as_slice(), suffix_chars.as_slice()) {
        return false;
    }
    let long_enough = |stem: &[char]| -> (b: bool)
        ensures
            b == (measure_of(stem@) > min),
        { measure(stem) > min };
    replace_suffix_condition(word, suffix, replacement, long_enough);
    true
}

/// Strips plural endings.
pub fn step_1a(word: &mut Vec<char>)
    ensures
        final(word)@ == step_1a_of(old(word)@),
{
    if replace_suffix(word, "sses", "ss") {
        return;
    }
    if replace_suffix(word, "ies", "i") {
        return;
    }
    if replace_suffix(word, "ss", "ss") {
        assert(word@ =~= old(word)@);
        return;
    }
    let n = word.len();
    if n > 0 && word[n - 1] == 's' {
        word.pop();
    }
}

/// Repairs a stem that lost `ed` or `ing`.
fn tidy(word: &mut Vec<char>)
    ensures
        final(word)@ == tidied(old(word)@),
{
    if replace_suffix(word, "at", "ate") || replace_suffix(word, "bl", "ble") || replace_suffix(
        word,
        "iz",
        "ize",
    ) {
        return;
    }
    let n = word.len();
    if n >= 2 {
        let last = word[n - 1];
        let prev = word[n - 2];
        if last == prev && !is_vowel(word.as_slice(), n - 1) && last != 'l' && last != 's' && last
            != 'z' {
            word.pop();
            return;
        }
    }
    if measure(word.as_slice()) == 1 && ends_with_cvc(word.as_slice()) {
        word.push('e');
    }
}

/// Removes `ending` from a word that ends with it, if a vowel stands
/// before it, and tells whether the word ends with it and whether it was
/// removed.
fn strip_after_vowel(word: &mut Vec<char>, ending: &str) -> (r: (bool, bool))
    ensures
        r.0 == ends_with(old(word)@, ending@),
        r.1 == (ends_with(old(word)@, ending@) && contains_vowel(stem_before(old(word)@, ending@))),
        r.1 ==> final(word)@ == stem_before(old(word)@, ending@),
        !r.1 ==> final(word)@ == old(word)@,
{
    let ending_chars = chars_of(ending);
    if !has_suffix(word.as_slice(), ending_chars.as_slice()) {
        return (false, false);
    }
    let length = word.len() - ending_chars.len();
    let stem = slice_subrange(word.as_slice(), 0, length);
    if has_vowel(stem) {
        word.truncate(length);
        assert(word@ =~= stem_before(old(word)@, ending@));
        (true, true)
    } else {
        (true, false)
    }
}

/// Strips past and progressive endings.
pub fn step_1b(word: &mut Vec<char>)
    ensures
        final(word)@ == step_1b_of(old(word)@),
{
    if apply_rule(word, "eed", "ee", 0) {
        return;
    }
    let (ends_ed, stripped_ed) = strip_after_vowel(word, "ed");
    if stripped_ed {
        tidy(word);
        return;
    }
    if ends_ed {
        return;
    }
    let (_, stripped_ing) = strip_after_vowel(word, "ing");
    if stripped_ing {
        tidy(word);
    }
}

/// Turns a final `y` after a vowel into `i`.
pub fn step_1c(word: &mut Vec<char>)
    ensures
        final(word)@ == step_1c_of(old(word)@),
{
    let n = word.len();
    if n > 0 && word[n - 1] == 'y' {
        let stem = slice_subrange(word.as_slice(), 0, n - 1);
        assert(stem@ =~= word@.drop_last());
        if has_vowel(stem) {
            word.pop();
            word.push('i');
        }
    }
}

/// Maps double suffixes to single ones.
pub fn step_2(word: &mut Vec<char>)
    ensures
        final(word)@ == step_2_of(old(word)@),
{
    if apply_rule(word, "ational", "ate", 0) {
        return;
    }
    if apply_rule(word, "tional", "tion", 0) {
        return;
    }
    if apply_rule(word, "enci", "ence", 0) {
        return;
    }
    if apply_rule(word, "anci", "ance", 0) {
        return;
    }
    if apply_rule(word, "izer", "ize", 0) {
        return;
    }
    if apply_rule(word, "abli", "able", 0) {
        return;
    }
    if apply_rule(word, "alli", "al", 0) {
        return;
    }
    if apply_rule(word, "entli", "ent", 0) {
        return;
    }
    if apply_rule(word, "eli", "e", 0) {
        return;
    }
    if apply_rule(word, "ousli", "ous", 0) {
        return;
    }
    if apply_rule(word, "ization", "ize", 0) {
        return;
    }
    if apply_rule(word, "ation", "ate", 0) {
        return;
    }
    if apply_rule(word, "ator", "ate", 0) {
        return;
    }
    if apply_rule(word, "alism", "al", 0) {
        return;
    }
    if apply_rule(word, "iveness", "ive", 0) {
        return;
    }
    if apply_rule(word, "fulness", "ful", 0) {
        return;
    }
    if apply_rule(word, "ousness", "ous", 0) {
        return;
    }
    if apply_rule(word, "aliti", "al", 0) {
        return;
    }
    if apply_rule(word, "iviti", "ive", 0) {
        return;
    }
    if apply_rule(word, "biliti", "ble", 0) {
        return;
    }
}

/// Strips endings such as `icate`, `ful`, `ness`.
pub fn step_3(word: &mut Vec<char>)
    ensures
        final(word)@ == step_3_of(old(word)@),
{
    if apply_rule(word, "icate", "ic", 0) {
        return;
    }
    if apply_rule(word, "ative", "", 0) {
        return;
    }
    if apply_rule(word, "alize", "al", 0) {
        return;
    }
    if apply_rule(word, "iciti", "ic", 0) {
        return;
    }
    if apply_rule(word, "ical", "ic", 0) {
        return;
    }
    if apply_rule(word, "ful", "", 0) {
        return;
    }
    if apply_rule(word, "ness", "", 0) {
        return;
    }
}

/// Strips residual suffixes from stems of measure above one.
pub fn step_4(word: &mut Vec<char>)
    ensures
        final(word)@ == step_4_of(old(word)@),
{
    if apply_rule(word, "al", "", 1) {
        return;
    }
    if apply_rule(word, "ance", "", 1) {
        return;
    }
    if apply_rule(word, "ence", "", 1) {
        return;
    }
    if apply_rule(word, "er", "", 1) {
        return;
    }
    if apply_rule(word, "ic", "", 1) {
        return;
    }
    if apply_rule(word, "able", "", 1) {
        return;
    }
    if apply_rule(word, "ible", "", 1) {
        return;
    }
    if apply_rule(word, "ant", "", 1) {
        return;
    }
    if apply_rule(word, "ement", "", 1) {
        return;
    }
    if apply_rule(word, "ment", "", 1) {
        return;
    }
    if apply_rule(word, "ent", "", 1) {
        return;
    }
    if apply_rule(word, "ou", "", 1) {
        return;
    }
    if apply_rule(word, "ism", "", 1) {
        return;
    }
    if apply_rule(word, "ate", "", 1) {
        return;
    }
    if apply_rule(word, "iti", "", 1) {
        return;
    }
    if apply_rule(word, "ous", "", 1) {
        return;
    }
    if apply_rule(word, "ive", "", 1) {
        return;
    }
    if apply_rule(word, "ize", "", 1) {
        return;
    }
    let after_s_or_t = |stem: &[char]| -> (b: bool)
        ensures
            b == ion_applies(stem@),
        {
            let n = stem.len();
            n > 0 && (stem[n - 1] == 's' || stem[n - 1] == 't') && measure(stem) > 1
        };
    proof {
        reveal_strlit("");
        if ends_with(word@, "ion"@) {
            lemma_suffix_split(word@, "ion"@);
        }
        assert(""@ =~= Seq::<char>::empty());
    }
    replace_suffix_condition(word, "ion", "", after_s_or_t);
}

/// Drops a final `e`.
pub fn step_5a(word: &mut Vec<char>)
    ensures
        final(word)@ == step_5a_of(old(word)@),
{
    let n = word.len();
    if n > 0 && word[n - 1] == 'e' {
        let stem = slice_subrange(word.as_slice(), 0, n - 1);
        assert(stem@ =~= word@.drop_last());
        let m = measure(stem);
        if m > 1 || (m == 1 && !ends_with_cvc(stem)) {
            word.pop();
        }
    }
}

/// Makes a final double `l` single.
pub fn step_5b(word: &mut Vec<char>)
    ensures
        final(word)@ == step_5b_of(old(word)@),
{
    let n = word.len();
    if n >= 2 && measure(word.as_slice()) > 1 && word[n - 1] == 'l' && word[n - 2] == 'l' {
        word.pop();
    }
}

/// Tells whether two words are the same.
fn same_word(a: &[char], b: &[char]) -> (r: bool)
    ensures
        r == (a@ == b@),
{
    if a.len() != b.len() {
        return false;
    }
    let mut i: usize = 0;
    while i < a.len()
        invariant
            i <= a@.len(),
            a@.len() == b@.len(),
            forall|j: int| 0 <= j < i ==> a@[j] == b@[j],
        decreases a@.len() - i,
    {
        if a[i] != b[i] {
            return false;
        }
        i += 1;
    }
    assert(a@ =~= b@);
    true
}

/// A copy of a word.
fn copy_word(word: &[char]) -> (copy: Vec<char>)
    ensures
        copy@ == word@,
{
    let mut copy: Vec<char> = Vec::new();
    let mut i: usize = 0;
    while i < word.len()
        invariant
            i <= word@.len(),
            copy@ == word@.take(i as int),
        decreases word@.len() - i,
    {
        copy.push(word[i]);
        assert(copy@ =~= word@.take(i + 1));
        i += 1;
    }
    assert(word@.take(i as int) =~= word@);
    copy
}

/// Tells whether no step fires on the word, so that stemming leaves it as
/// it is.
pub fn is_settled(word: &[char]) -> (r: bool)
    ensures
        r == settled(word@),
{
    if word.len() <= 2 {
        return true;
    }
    let mut w = copy_word(word);
    step_1a(&mut w);
    if !same_word(w.as_slice(), word) {
        return false;
    }
    step_1b(&mut w);
    if !same_word(w.as_slice(), word) {
        return false;
    }
    step_1c(&mut w);
    if !same_word(w.as_slice(), word) {
        return false;
    }
    step_2(&mut w);
    if !same_word(w.as_slice(), word) {
        return false;
    }
    step_3(&mut w);
    if !same_word(w.as_slice(), word) {
        return false;
    }
    step_4(&mut w);
    if !same_word(w.as_slice(), word) {
        return false;
    }
    step_5a(&mut w);
    if !same_word(w.as_slice(), word) {
        return false;
    }
    step_5b(&mut w);
    same_word(w.as_slice(), word)
}

/// Stems a word given as characters. The word is taken as it is: no case
/// is changed.
pub fn stem_chars(word: Vec<char>) -> (stem: Vec<char>)
    ensures
        stem@ == stem_of(word@),
{
    let mut word = word;
    if word.len() <= 2 {
        return word;
    }
    step_1a(&mut word);
    step_1b(&mut word);
    step_1c(&mut word);
    step_2(&mut word);
    step_3(&mut word);
    step_4(&mut word);
    step_5a(&mut word);
    step_5b(&mut word);
    word
}

/// Lower-cases a word and stems it.
pub fn porter_stem(word: &str) -> (stem: String)
    ensures
        stem@ == stem_of(lowered(word@)),
{
    let lowered = lower(word);
    let stem = stem_chars(chars_of(lowered.as_str()));
    string_of(stem.as_slice())
}

} // verus!
