//! From text to terms: lower-casing, letter runs, the length and stop-word
//! filters, stemming; and the vocabulary of a corpus.

use vstd::prelude::*;
use crate::document::{indexed_text, Document};
use crate::stemmer::{stem_chars, stem_of};
use crate::terms::{lemma_sorted_unique, TermSet};
use crate::text::{chars_of, lower, lowered, string_of};

verus! {

/// Whether `c` is one of the 52 ASCII letters.
pub open spec fn is_letter(c: char) -> bool {
    ('a' <= c && c <= 'z') || ('A' <= c && c <= 'Z')
}

/// The number of letters `s` starts with.
pub open spec fn run_len(s: Seq<char>) -> nat
    decreases s.len(),
{
    if s.len() == 0 || !is_letter(s[0]) {
        0
    } else {
        1 + run_len(s.drop_first())
    }
}

/// A run is no longer than the text it starts.
pub proof fn lemma_run_len_bound(s: Seq<char>)
    ensures
        run_len(s) <= s.len(),
        s.len() > 0 && is_letter(s[0]) ==> run_len(s) >= 1,
    decreases s.len(),
{
    if s.len() > 0 && is_letter(s[0]) {
        lemma_run_len_bound(s.drop_first());
    }
}

/// The maximal runs of ASCII letters in `s`, from left to right.
pub open spec fn letter_runs(s: Seq<char>) -> Seq<Seq<char>>
    decreases s.len(),
    via letter_runs_decreases
{
    if s.len() == 0 {
        Seq::empty()
    } else if !is_letter(s[0]) {
        letter_runs(s.drop_first())
    } else {
        let n = run_len(s) as int;
        seq![s.take(n)] + letter_runs(s.skip(n))
    }
}

/// After a run less of the text is left.
#[via_fn]
proof fn letter_runs_decreases(s: Seq<char>) {
    lemma_run_len_bound(s);
}

/// Finds the letter runs of a text with the regular expression `[a-zA-Z]+`:
/// `Regex::find_iter` yields the successive non-overlapping matches, which
/// for this greedy character class are the maximal runs of ASCII letters.
#[verifier::external_body]
pub(crate) fn find_letter_runs(text: &str) -> (runs: Vec<String>)
    ensures
        runs@.map_values(|r: String| r@) == letter_runs(text@),
{
    let pattern = regex::Regex::new("[a-zA-Z]+").unwrap();
    let mut runs = Vec::new();
    for found in pattern.find_iter(text) {
        runs.push(found.as_str().to_string());
    }
    runs
}


/// What a vector of strings holds, as sequences of characters.
pub open spec fn strings_view(v: Seq<String>) -> Seq<Seq<char>> {
    v.map_values(|r: String| r@)
}

/// What a vector of terms holds, as sequences of characters.
pub open spec fn terms_view(v: Seq<Vec<char>>) -> Seq<Seq<char>> {
    v.map_values(|t: Vec<char>| t@)
}

/// Whether a letter run survives the filters: it has at least three
/// letters and is no stop word.
pub open spec fn kept(run: Seq<char>, stop_words: Seq<Seq<char>>) -> bool {
    run.len() >= 3 && !stop_words.contains(run)
}

/// The filter of `kept` as a predicate on runs.
pub open spec fn keep_rule(stop_words: Seq<Seq<char>>) -> spec_fn(Seq<char>) -> bool {
    |run: Seq<char>| kept(run, stop_words)
}

/// Stemming as a function on runs.
pub open spec fn stem_rule() -> spec_fn(Seq<char>) -> Seq<char> {
    |run: Seq<char>| stem_of(run)
}

/// The terms that a sequence of letter runs gives: the runs that survive
/// the filters, each stemmed, in their order.
pub open spec fn tokens_from(runs: Seq<Seq<char>>, stop_words: Seq<Seq<char>>) -> Seq<Seq<char>> {
    runs.filter(keep_rule(stop_words)).map_values(stem_rule())
}

/// The terms of a text that is already in lower case.
pub open spec fn tokens_of_lowered(lowered: Seq<char>, stop_words: Seq<Seq<char>>) -> Seq<
    Seq<char>,
> {
    tokens_from(letter_runs(lowered), stop_words)
}

/// The terms of a text: it is lower-cased, cut into letter runs, filtered
/// and stemmed.
pub open spec fn tokens_of(text: Seq<char>, stop_words: Seq<Seq<char>>) -> Seq<Seq<char>> {
    tokens_of_lowered(lowered(text), stop_words)
}

/// The empty text has no terms.
pub proof fn lemma_empty_text_has_no_terms(stop_words: Seq<Seq<char>>)
    ensures
        tokens_of(Seq::<char>::empty(), stop_words) == Seq::<Seq<char>>::empty(),
{
    reveal(Seq::filter);
    let text = Seq::<char>::empty();
    assert(lowered(text) == text);
    assert(letter_runs(text) == Seq::<Seq<char>>::empty());
    assert(tokens_of(text, stop_words) =~= Seq::<Seq<char>>::empty());
}

/// Filters and stems letter runs.
pub fn tokens_of_runs(runs: &Vec<String>, stop_words: &TermSet) -> (tokens: Vec<Vec<char>>)
    requires
        stop_words.wf(),
    ensures
        terms_view(tokens@) == tokens_from(strings_view(runs@), stop_words@),
{
    let mut tokens: Vec<Vec<char>> = Vec::new();
    let ghost all = strings_view(runs@);
    let ghost keep = keep_rule(stop_words@);
    let mut i: usize = 0;
    proof {
        reveal(Seq::filter);
        assert(all.take(0).filter(keep) =~= Seq::<Seq<char>>::empty());
        assert(terms_view(tokens@) =~= tokens_from(all.take(0), stop_words@));
    }
    while i < runs.len()
        invariant
            i <= runs@.len(),
            stop_words.wf(),
            all == strings_view(runs@),
            keep == keep_rule(stop_words@),
            terms_view(tokens@) == all.take(i as int).filter(keep).map_values(stem_rule()),
        decreases runs@.len() - i,
    {
        let run = chars_of(runs[i].as_str());
        let ghost before = all.take(i as int);
        let ghost upto = all.take(i + 1);
        proof {
            reveal(Seq::filter);
            assert(upto.drop_last() =~= before);
            assert(upto.last() == run@);
        }
        if run.len() >= 3 && stop_words.position(run.as_slice()).is_none() {
            let ghost old_tokens = tokens@;
            let stem = stem_chars(run);
            tokens.push(stem);
            proof {
                assert(upto.filter(keep) == before.filter(keep).push(run@));
                assert(terms_view(tokens@) =~= terms_view(old_tokens).push(stem_of(run@)));
                assert(before.filter(keep).push(run@).map_values(stem_rule()) =~= before.filter(
                    keep,
                ).map_values(stem_rule()).push(stem_of(run@)));
            }
        } else {
            assert(upto.filter(keep) == before.filter(keep));
        }
        i += 1;
    }
    assert(all.take(i as int) =~= all);
    tokens
}

/// The terms of a text that is already in lower case.
pub fn tokenize_lowered(lowered: &str, stop_words: &TermSet) -> (tokens: Vec<Vec<char>>)
    requires
        stop_words.wf(),
    ensures
        terms_view(tokens@) == tokens_of_lowered(lowered@, stop_words@),
{
    let runs = find_letter_runs(lowered);
    tokens_of_runs(&runs, stop_words)
}

/// The terms of a text. Queries and documents go through this one
/// function, so that both are cut and stemmed alike.
pub fn tokenize(text: &str, stop_words: &TermSet) -> (tokens: Vec<String>)
    requires
        stop_words.wf(),
    ensures
        strings_view(tokens@) == tokens_of(text@, stop_words@),
{
    let lowered = lower(text);
    let terms = tokenize_lowered(lowered.as_str(), stop_words);
    let mut tokens: Vec<String> = Vec::new();
    let mut i: usize = 0;
    while i < terms.len()
        invariant
            i <= terms@.len(),
            strings_view(tokens@) == terms_view(terms@).take(i as int),
        decreases terms@.len() - i,
    {
        let ghost old_tokens = tokens@;
        let token = string_of(terms[i].as_slice());
        tokens.push(token);
        assert(strings_view(tokens@) =~= strings_view(old_tokens).push(terms@[i as int]@));
        assert(terms_view(terms@).take(i + 1) =~= terms_view(terms@).take(i as int).push(
            terms@[i as int]@,
        ));
        i += 1;
    }
    assert(terms_view(terms@).take(i as int) =~= terms_view(terms@));
    tokens
}

/// The terms of a document: those of the text it is indexed by.
#[verifier::opaque]
pub open spec fn document_terms(doc: Document, stop_words: Seq<Seq<char>>) -> Seq<Seq<char>> {
    tokens_of(indexed_text(doc), stop_words)
}

/// The terms of a document, through the one pipeline that queries use too.
pub fn tokenize_document(doc: &Document, stop_words: &TermSet) -> (tokens: Vec<Vec<char>>)
    requires
        stop_words.wf(),
    ensures
        terms_view(tokens@) == document_terms(*doc, stop_words@),
{
    reveal(document_terms);
    let text = doc.full_text();
    let lowered = lower(text.as_str());
    tokenize_lowered(lowered.as_str(), stop_words)
}

/// Whether `term` is among the terms of some document of the corpus.
pub open spec fn corpus_has(
    documents: Seq<Document>,
    stop_words: Seq<Seq<char>>,
    term: Seq<char>,
) -> bool {
    exists|d: int|
        0 <= d < documents.len() && #[trigger] document_terms(documents[d], stop_words).contains(
            term,
        )
}

/// The corpus and the stop words determine the vocabulary: two term sets
/// that hold exactly the terms of the corpus give every term the same
/// index.
pub proof fn lemma_vocabulary_determined(
    documents: Seq<Document>,
    stop_words: Seq<Seq<char>>,
    first: TermSet,
    second: TermSet,
)
    requires
        first.wf(),
        second.wf(),
        forall|term: Seq<char>| first.has(term) <==> corpus_has(documents, stop_words, term),
        forall|term: Seq<char>| second.has(term) <==> corpus_has(documents, stop_words, term),
    ensures
        first@ == second@,
{
    assert forall|term: Seq<char>| first@.contains(term) <==> second@.contains(term) by {
        assert(first.has(term) <==> corpus_has(documents, stop_words, term));
        assert(second.has(term) <==> corpus_has(documents, stop_words, term));
    }
    lemma_sorted_unique(first@, second@);
}

/// A term is in the first `d + 1` documents when it is in the first `d`
/// or in the one after them.
pub proof fn lemma_corpus_has_next(
    documents: Seq<Document>,
    d: int,
    stop_words: Seq<Seq<char>>,
    term: Seq<char>,
)
    requires
        0 <= d < documents.len(),
    ensures
        corpus_has(documents.take(d + 1), stop_words, term) <==> (corpus_has(
            documents.take(d),
            stop_words,
            term,
        ) || document_terms(documents[d], stop_words).contains(term)),
{
    let upto = documents.take(d);
    let next = documents.take(d + 1);
    if corpus_has(upto, stop_words, term) {
        let k = choose|k: int|
            0 <= k < upto.len() && #[trigger] document_terms(upto[k], stop_words).contains(term);
        assert(next[k] == upto[k]);
    }
    if document_terms(documents[d], stop_words).contains(term) {
        assert(next[d] == documents[d]);
    }
    if corpus_has(next, stop_words, term) {
        let k = choose|k: int|
            0 <= k < next.len() && #[trigger] document_terms(next[k], stop_words).contains(term);
        if k < d {
            assert(upto[k] == next[k]);
        } else {
            assert(next[k] == documents[d]);
        }
    }
}

/// Adds every term of `tokens` to `set`.
fn insert_all(set: &mut TermSet, tokens: &Vec<Vec<char>>)
    requires
        old(set).wf(),
    ensures
        final(set).wf(),
        forall|term: Seq<char>|
            final(set).has(term) <==> (old(set).has(term) || terms_view(tokens@).contains(term)),
{
    let ghost found = terms_view(tokens@);
    let ghost base = *set;
    let mut i: usize = 0;
    while i < tokens.len()
        invariant
            i <= tokens@.len(),
            set.wf(),
            base == *old(set),
            found == terms_view(tokens@),
            forall|term: Seq<char>|
                set.has(term) <==> (base.has(term) || found.take(i as int).contains(term)),
        decreases tokens@.len() - i,
    {
        let token = tokens[i].clone();
        assert(token@ =~= tokens@[i as int]@);
        let ghost before = *set;
        set.insert(token);
        proof {
            assert(tokens@[i as int]@ == found[i as int]);
            assert(forall|term: Seq<char>|
                set.has(term) <==> (before.has(term) || term == found[i as int]));
            let seen = found.take(i as int);
            let seen_next = found.take(i + 1);
            assert(seen_next =~= seen.push(found[i as int]));
            assert forall|term: Seq<char>|
                set.has(term) <==> (base.has(term) || seen_next.contains(term)) by {
                assert(before.has(term) <==> (base.has(term) || seen.contains(term)));
                assert(set.has(term) <==> (before.has(term) || term == found[i as int]));
                if seen.contains(term) {
                    let k = choose|k: int| 0 <= k < seen.len() && seen[k] == term;
                    assert(seen_next[k] == term);
                }
                if seen_next.contains(term) {
                    let k = choose|k: int| 0 <= k < seen_next.len() && seen_next[k] == term;
                    if k < i {
                        assert(seen[k] == term);
                    }
                }
                if term == found[i as int] {
                    assert(seen_next[i as int] == term);
                }
            }
        }
        i += 1;
    }
    proof {
        assert(found.take(i as int) =~= found);
        assert forall|term: Seq<char>|
            set.has(term) <==> (base.has(term) || found.contains(term)) by {
            assert(set.has(term) <==> (base.has(term) || found.take(i as int).contains(term)));
        }
    }
}

/// The vocabulary of a corpus: the set of the terms of its documents. The
/// index of a term is its rank in lexicographic order, so the same corpus
/// always gives the same indices.
pub fn build_vocabulary(documents: &Vec<Document>, stop_words: &TermSet) -> (vocabulary: TermSet)
    requires
        stop_words.wf(),
    ensures
        vocabulary.wf(),
        forall|term: Seq<char>|
            vocabulary.has(term) <==> corpus_has(documents@, stop_words@, term),
{
    let mut vocabulary = TermSet::new();
    let mut d: usize = 0;
    while d < documents.len()
        invariant
            d <= documents@.len(),
            stop_words.wf(),
            vocabulary.wf(),
            forall|term: Seq<char>|
                vocabulary.has(term) <==> corpus_has(documents@.take(d as int), stop_words@, term),
        decreases documents@.len() - d,
    {
        let tokens = tokenize_document(&documents[d], stop_words);
        insert_all(&mut vocabulary, &tokens);
        proof {
            assert forall|term: Seq<char>|
                vocabulary.has(term) <==> corpus_has(
                    documents@.take(d + 1),
                    stop_words@,
                    term,
                ) by {
                lemma_corpus_has_next(documents@, d as int, stop_words@, term);
            }
        }
        d += 1;
    }
    assert(documents@.take(d as int) =~= documents@);
    vocabulary
}

} // verus!
