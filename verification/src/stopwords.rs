//! Stop-word lists: one word to a line.

use vstd::prelude::*;
use crate::terms::TermSet;
use crate::text::{chars_of, lower, lowered, string_of};

verus! {

/// Whether `c` is white space: one of the characters with the Unicode
/// property `White_Space`.
pub open spec fn is_white_space(c: char) -> bool {
    ('\u{9}' <= c && c <= '\u{d}') || c == ' ' || c == '\u{85}' || c == '\u{a0}' || c == '\u{1680}'
        || ('\u{2000}' <= c && c <= '\u{200a}') || c == '\u{2028}' || c == '\u{2029}' || c
        == '\u{202f}' || c == '\u{205f}' || c == '\u{3000}'
}

/// The number of white-space characters that `s` starts with.
pub open spec fn leading_space(s: Seq<char>) -> nat
    decreases s.len(),
{
    if s.len() > 0 && is_white_space(s[0]) {
        1 + leading_space(s.drop_first())
    } else {
        0
    }
}

/// The number of white-space characters that `s` ends with.
pub open spec fn trailing_space(s: Seq<char>) -> nat
    decreases s.len(),
{
    if s.len() > 0 && is_white_space(s.last()) {
        1 + trailing_space(s.drop_last())
    } else {
        0
    }
}

/// `s` without the white space at its start and at its end. A text of
/// white space only has nothing left.
pub open spec fn trimmed(s: Seq<char>) -> Seq<char> {
    let rest = s.skip(leading_space(s) as int);
    rest.take(rest.len() - trailing_space(rest))
}

/// The lines of `s`: the pieces between its line feeds. A text without a
/// line feed is one line; a text that ends with a line feed has an empty
/// last line.
pub open spec fn lines_of(s: Seq<char>) -> Seq<Seq<char>>
    decreases s.len(),
{
    if s.len() == 0 {
        seq![s]
    } else if s.last() == '\n' {
        lines_of(s.drop_last()).push(Seq::empty())
    } else {
        let before = lines_of(s.drop_last());
        before.drop_last().push(before.last().push(s.last()))
    }
}

/// A run of white space at the start of a text, up to a character that is
/// none, is all the white space the text starts with.
proof fn lemma_leading_found(s: Seq<char>, n: int)
    requires
        0 <= n <= s.len(),
        forall|i: int| 0 <= i < n ==> is_white_space(#[trigger] s[i]),
        n < s.len() ==> !is_white_space(s[n]),
    ensures
        leading_space(s) == n,
    decreases n,
{
    if n > 0 {
        let rest = s.drop_first();
        assert forall|i: int| 0 <= i < n - 1 implies is_white_space(#[trigger] rest[i]) by {
            assert(rest[i] == s[i + 1]);
        }
        lemma_leading_found(rest, n - 1);
    }
}

/// A run of white space at the end of a text, down to a character that is
/// none, is all the white space the text ends with.
proof fn lemma_trailing_found(s: Seq<char>, n: int)
    requires
        0 <= n <= s.len(),
        forall|i: int| s.len() - n <= i < s.len() ==> is_white_space(#[trigger] s[i]),
        n < s.len() ==> !is_white_space(s[s.len() - n - 1]),
    ensures
        trailing_space(s) == n,
    decreases n,
{
    if n > 0 {
        let rest = s.drop_last();
        assert forall|i: int| rest.len() - (n - 1) <= i < rest.len() implies is_white_space(
            #[trigger] rest[i],
        ) by {
            assert(rest[i] == s[i]);
        }
        lemma_trailing_found(rest, n - 1);
    }
}

/// Tells whether a character is white space.
pub fn is_space(c: char) -> (r: bool)
    ensures
        r == is_white_space(c),
{
    ('\u{9}' <= c && c <= '\u{d}') || c == ' ' || c == '\u{85}' || c == '\u{a0}' || c == '\u{1680}'
        || ('\u{2000}' <= c && c <= '\u{200a}') || c == '\u{2028}' || c == '\u{2029}' || c
        == '\u{202f}' || c == '\u{205f}' || c == '\u{3000}'
}

/// Removes the white space at the start and at the end of a text.
pub fn trim(text: &[char]) -> (r: Vec<char>)
    ensures
        r@ == trimmed(text@),
{
    let mut start: usize = 0;
    while start < text.len() && is_space(text[start])
        invariant
            start <= text@.len(),
            forall|i: int| 0 <= i < start ==> is_white_space(#[trigger] text@[i]),
        decreases text@.len() - start,
    {
        start += 1;
    }
    let mut end: usize = text.len();
    while end > start && is_space(text[end - 1])
        invariant
            start <= end <= text@.len(),
            forall|i: int| end <= i < text@.len() ==> is_white_space(#[trigger] text@[i]),
        decreases end,
    {
        end -= 1;
    }
    let mut r: Vec<char> = Vec::new();
    let mut i: usize = start;
    while i < end
        invariant
            start <= i <= end <= text@.len(),
            r@ == text@.subrange(start as int, i as int),
        decreases end - i,
    {
        r.push(text[i]);
        assert(r@ =~= text@.subrange(start as int, i + 1));
        i += 1;
    }
    proof {
        lemma_leading_found(text@, start as int);
        let rest = text@.skip(start as int);
        assert forall|i: int| rest.len() - (text@.len() - end) <= i < rest.len() implies is_white_space(
            #[trigger] rest[i],
        ) by {
            assert(rest[i] == text@[start + i]);
        }
        if end > start {
            assert(rest[end - start - 1] == text@[end - 1]);
        }
        lemma_trailing_found(rest, text@.len() - end);
        assert(r@ =~= trimmed(text@));
    }
    r
}

/// Cuts a text into its lines.
pub fn lines(text: &[char]) -> (r: Vec<Vec<char>>)
    ensures
        r@.map_values(|line: Vec<char>| line@) == lines_of(text@),
{
    let mut done: Vec<Vec<char>> = Vec::new();
    let mut line: Vec<char> = Vec::new();
    let mut i: usize = 0;
    proof {
        assert(text@.take(0) =~= Seq::<char>::empty());
        assert(done@.map_values(|line: Vec<char>| line@).push(line@) =~= lines_of(text@.take(0)));
    }
    while i < text.len()
        invariant
            i <= text@.len(),
            done@.map_values(|line: Vec<char>| line@).push(line@) == lines_of(text@.take(i as int)),
        decreases text@.len() - i,
    {
        let ghost before = done@.map_values(|line: Vec<char>| line@);
        let ghost current = line@;
        let ghost upto = text@.take(i + 1);
        assert(upto.drop_last() =~= text@.take(i as int));
        assert(upto.last() == text@[i as int]);
        let c = text[i];
        if c == '\n' {
            done.push(line);
            line = Vec::new();
            assert(done@.map_values(|line: Vec<char>| line@) =~= before.push(current));
        } else {
            line.push(c);
            assert(before.push(current).drop_last() =~= before);
        }
        assert(done@.map_values(|line: Vec<char>| line@).push(line@) =~= lines_of(upto));
        i += 1;
    }
    let ghost before = done@.map_values(|line: Vec<char>| line@);
    let ghost current = line@;
    done.push(line);
    assert(text@.take(i as int) =~= text@);
    assert(done@.map_values(|line: Vec<char>| line@) =~= before.push(current));
    done
}

/// The word that a line of a stop-word list stands for: the line without
/// the white space around it, in lower case.
pub open spec fn word_of_line(line: Seq<char>) -> Seq<char> {
    lowered(trimmed(line))
}

/// Whether `word` is listed in `lines`: it is not empty and some line
/// stands for it.
pub open spec fn listed(lines: Seq<Seq<char>>, word: Seq<char>) -> bool {
    word.len() > 0 && exists|i: int| 0 <= i < lines.len() && word == word_of_line(#[trigger] lines[i])
}

/// The set of the words that the given lines list. Lines that stand for
/// the empty word are skipped.
pub fn stop_words_from_lines(lines: &Vec<Vec<char>>) -> (set: TermSet)
    ensures
        set.wf(),
        forall|word: Seq<char>|
            set.has(word) <==> listed(lines@.map_values(|line: Vec<char>| line@), word),
{
    let ghost all = lines@.map_values(|line: Vec<char>| line@);
    let mut set = TermSet::new();
    let mut i: usize = 0;
    while i < lines.len()
        invariant
            i <= lines@.len(),
            set.wf(),
            all == lines@.map_values(|line: Vec<char>| line@),
            forall|word: Seq<char>| set.has(word) <==> listed(all.take(i as int), word),
        decreases lines@.len() - i,
    {
        let bare = trim(lines[i].as_slice());
        let lowered = lower(string_of(bare.as_slice()).as_str());
        let word = chars_of(lowered.as_str());
        let ghost before = set;
        let ghost w = word@;
        assert(w == word_of_line(all[i as int]));
        if word.len() > 0 {
            set.insert(word);
        }
        proof {
            let seen = all.take(i as int);
            let seen_next = all.take(i + 1);
            assert forall|x: Seq<char>| set.has(x) <==> listed(seen_next, x) by {
                assert(before.has(x) <==> listed(seen, x));
                if listed(seen, x) {
                    let k = choose|k: int|
                        0 <= k < seen.len() && x == word_of_line(#[trigger] seen[k]);
                    assert(seen_next[k] == seen[k]);
                }
                if x == w && w.len() > 0 {
                    assert(seen_next[i as int] == all[i as int]);
                }
                if listed(seen_next, x) {
                    let k = choose|k: int|
                        0 <= k < seen_next.len() && x == word_of_line(#[trigger] seen_next[k]);
                    if k < i {
                        assert(seen[k] == seen_next[k]);
                    } else {
                        assert(seen_next[k] == all[i as int]);
                    }
                }
            }
        }
        i += 1;
    }
    assert(all.take(i as int) =~= all);
    set
}

/// Reads a stop-word list from the content of its file: one word to a
/// line, lines ending at line feeds, white space around a word dropped,
/// a carriage return before the line feed with it.
pub fn parse_stop_words(content: &str) -> (set: TermSet)
    ensures
        set.wf(),
        forall|word: Seq<char>| set.has(word) <==> listed(lines_of(content@), word),
{
    let chars = chars_of(content);
    let all = lines(chars.as_slice());
    stop_words_from_lines(&all)
}

} // verus!
