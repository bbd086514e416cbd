//! Term counts: for each document, how often each vocabulary term occurs
//! in it, and for each term, in how many documents it occurs. These whole
//! numbers determine every tf-idf weight.

use vstd::prelude::*;
use crate::document::Document;
use crate::terms::{lemma_sorted_no_duplicates, TermSet};
use crate::tokenizer::{corpus_has, document_terms, terms_view, tokenize_document};

verus! {

/// How often `term` occurs in `tokens`.
pub open spec fn occurrences(tokens: Seq<Seq<char>>, term: Seq<char>) -> nat
    decreases tokens.len(),
{
    if tokens.len() == 0 {
        0
    } else {
        let last: nat = if tokens.last() == term {
            1
        } else {
            0
        };
        occurrences(tokens.drop_last(), term) + last
    }
}

/// How many of `tokens` are terms of `vocabulary`.
pub open spec fn known_tokens(tokens: Seq<Seq<char>>, vocabulary: Seq<Seq<char>>) -> nat
    decreases tokens.len(),
{
    if tokens.len() == 0 {
        0
    } else {
        let last: nat = if vocabulary.contains(tokens.last()) {
            1
        } else {
            0
        };
        known_tokens(tokens.drop_last(), vocabulary) + last
    }
}

/// Whether `entries` is a sparse column: pairs of a row and a positive
/// count, the rows strictly increasing.
pub open spec fn is_sparse(entries: Seq<(usize, usize)>) -> bool {
    &&& forall|k: int| 0 <= k < entries.len() ==> (#[trigger] entries[k]).1 > 0
    &&& forall|j: int, k: int|
        0 <= j < k < entries.len() ==> (#[trigger] entries[j]).0 < (#[trigger] entries[k]).0
}

/// Whether `entries` is a sparse column over `n_terms` rows.
pub open spec fn is_column(entries: Seq<(usize, usize)>, n_terms: int) -> bool {
    &&& is_sparse(entries)
    &&& forall|k: int| 0 <= k < entries.len() ==> (#[trigger] entries[k]).0 < n_terms
}

/// The count that a column holds for `row`: zero where it has no entry.
pub open spec fn count_in(entries: Seq<(usize, usize)>, row: int) -> nat {
    if exists|k: int| 0 <= k < entries.len() && (#[trigger] entries[k]).0 == row {
        let k = choose|k: int| 0 <= k < entries.len() && (#[trigger] entries[k]).0 == row;
        entries[k].1 as nat
    } else {
        0
    }
}

/// In a column, the entry of a row holds that row's count.
pub proof fn lemma_count_at_entry(entries: Seq<(usize, usize)>, k: int)
    requires
        is_sparse(entries),
        0 <= k < entries.len(),
    ensures
        count_in(entries, entries[k].0 as int) == entries[k].1,
{
    let row = entries[k].0 as int;
    let c = choose|c: int| 0 <= c < entries.len() && (#[trigger] entries[c]).0 == row;
    if c < k {
        assert(entries[c].0 < entries[k].0);
    } else if k < c {
        assert(entries[k].0 < entries[c].0);
    }
}

/// The counts of one text: its column of the term-document matrix, and the
/// number of its tokens that are vocabulary terms.
#[derive(Debug)]
pub struct TermColumn {
    pub entries: Vec<(usize, usize)>,
    pub total: usize,
}

impl TermColumn {
    /// The column counts `tokens` over `vocabulary`: the count of each row is
    /// the number of occurrences of that row's term, and the total is the
    /// number of tokens that the vocabulary holds.
    pub open spec fn counts(&self, tokens: Seq<Seq<char>>, vocabulary: Seq<Seq<char>>) -> bool {
        &&& is_column(self.entries@, vocabulary.len() as int)
        &&& forall|row: int|
            0 <= row < vocabulary.len() ==> #[trigger] count_in(self.entries@, row) == occurrences(
                tokens,
                vocabulary[row],
            )
        &&& self.total == known_tokens(tokens, vocabulary)
    }
}

/// Adds one occurrence of `row` to a column.
fn bump(entries: &mut Vec<(usize, usize)>, row: usize, Ghost(n_terms): Ghost<int>)
    requires
        is_column(old(entries)@, n_terms),
        row < n_terms,
        count_in(old(entries)@, row as int) < usize::MAX,
    ensures
        is_column(final(entries)@, n_terms),
        count_in(final(entries)@, row as int) == count_in(old(entries)@, row as int) + 1,
        forall|other: int|
            other != row ==> count_in(final(entries)@, other) == count_in(old(entries)@, other),
{
    let mut at: usize = 0;
    while at < entries.len() && entries[at].0 < row
        invariant
            at <= entries@.len(),
            entries@ == old(entries)@,
            forall|k: int| 0 <= k < at ==> (#[trigger] entries@[k]).0 < row,
        decreases entries@.len() - at,
    {
        at += 1;
    }
    let ghost before = entries@;
    if at < entries.len() && entries[at].0 == row {
        let count = entries[at].1;
        proof {
            lemma_count_at_entry(before, at as int);
        }
        entries.set(at, (row, count + 1));
        proof {
            let after = entries@;
            assert(is_column(after, n_terms)) by {
                assert forall|k: int| 0 <= k < after.len() implies (#[trigger] after[k]).0
                    < n_terms && after[k].1 > 0 by {
                    assert(before[k].0 < n_terms);
                }
                assert forall|j: int, k: int| 0 <= j < k < after.len() implies (
                #[trigger] after[j]).0 < (#[trigger] after[k]).0 by {
                    assert(before[j].0 < before[k].0);
                }
            }
            lemma_count_at_entry(after, at as int);
            assert forall|other: int| other != row implies count_in(after, other) == count_in(
                before,
                other,
            ) by {
                lemma_same_rows(before, after, n_terms, at as int, other);
            }
        }
    } else {
        entries.insert(at, (row, 1));
        proof {
            let after = entries@;
            assert(after =~= before.insert(at as int, (row, 1usize)));
            assert forall|k: int| 0 <= k < after.len() implies (#[trigger] after[k]).0 < n_terms
                && after[k].1 > 0 by {
                if k < at {
                    assert(before[k].0 < n_terms);
                } else if k > at {
                    assert(before[k - 1].0 < n_terms);
                }
            }
            assert forall|j: int, k: int| 0 <= j < k < after.len() implies (#[trigger] after[j]).0
                < (#[trigger] after[k]).0 by {
                if k < at {
                    assert(before[j].0 < before[k].0);
                } else if k == at {
                    assert(before[j].0 < row);
                } else if j < at {
                    assert(before[j].0 < before[k - 1].0);
                } else if j == at {
                    assert(before[at as int].0 <= before[k - 1].0) by {
                        if at < k - 1 {
                            assert(before[at as int].0 < before[k - 1].0);
                        }
                    }
                } else {
                    assert(before[j - 1].0 < before[k - 1].0);
                }
            }
            assert(count_in(before, row as int) == 0) by {
                if exists|k: int| 0 <= k < before.len() && (#[trigger] before[k]).0 == row {
                    let k = choose|k: int| 0 <= k < before.len() && (#[trigger] before[k]).0 == row;
                    if k < at {
                        assert(before[k].0 < row);
                    } else if k > at {
                        assert(before[at as int].0 < before[k].0);
                    }
                }
            }
            lemma_count_at_entry(after, at as int);
            assert forall|other: int| other != row implies count_in(after, other) == count_in(
                before,
                other,
            ) by {
                lemma_inserted_rows(before, after, n_terms, at as int, other);
            }
        }
    }
}

/// Changing the count of one entry leaves the counts of the other rows.
proof fn lemma_same_rows(
    before: Seq<(usize, usize)>,
    after: Seq<(usize, usize)>,
    n_terms: int,
    at: int,
    other: int,
)
    requires
        is_column(before, n_terms),
        is_column(after, n_terms),
        0 <= at < before.len(),
        after.len() == before.len(),
        forall|k: int| 0 <= k < before.len() && k != at ==> after[k] == before[k],
        after[at].0 == before[at].0,
        other != before[at].0,
    ensures
        count_in(after, other) == count_in(before, other),
{
    if exists|k: int| 0 <= k < before.len() && (#[trigger] before[k]).0 == other {
        let k = choose|k: int| 0 <= k < before.len() && (#[trigger] before[k]).0 == other;
        assert(after[k].0 == other);
        lemma_count_at_entry(before, k);
        lemma_count_at_entry(after, k);
    } else if exists|k: int| 0 <= k < after.len() && (#[trigger] after[k]).0 == other {
        let k = choose|k: int| 0 <= k < after.len() && (#[trigger] after[k]).0 == other;
        assert(before[k].0 == other);
    }
}

/// A new entry leaves the counts of the other rows.
proof fn lemma_inserted_rows(
    before: Seq<(usize, usize)>,
    after: Seq<(usize, usize)>,
    n_terms: int,
    at: int,
    other: int,
)
    requires
        is_column(before, n_terms),
        is_column(after, n_terms),
        0 <= at <= before.len(),
        after.len() == before.len() + 1,
        forall|k: int| 0 <= k < at ==> after[k] == before[k],
        forall|k: int| at <= k < before.len() ==> after[k + 1] == before[k],
        other != after[at].0,
    ensures
        count_in(after, other) == count_in(before, other),
{
    if exists|k: int| 0 <= k < before.len() && (#[trigger] before[k]).0 == other {
        let k = choose|k: int| 0 <= k < before.len() && (#[trigger] before[k]).0 == other;
        lemma_count_at_entry(before, k);
        if k < at {
            assert(after[k].0 == other);
            lemma_count_at_entry(after, k);
        } else {
            assert(after[k + 1].0 == other);
            lemma_count_at_entry(after, k + 1);
        }
    } else if exists|k: int| 0 <= k < after.len() && (#[trigger] after[k]).0 == other {
        let k = choose|k: int| 0 <= k < after.len() && (#[trigger] after[k]).0 == other;
        if k < at {
            assert(before[k].0 == other);
        } else {
            assert(before[k - 1].0 == other);
        }
    }
}


/// No term occurs more often than there are tokens, and no more tokens are
/// known than there are.
pub proof fn lemma_counts_bounded(tokens: Seq<Seq<char>>, vocabulary: Seq<Seq<char>>, term: Seq<char>)
    ensures
        occurrences(tokens, term) <= tokens.len(),
        known_tokens(tokens, vocabulary) <= tokens.len(),
        occurrences(tokens, term) > 0 ==> tokens.contains(term),
        vocabulary.contains(term) ==> occurrences(tokens, term) <= known_tokens(tokens, vocabulary),
    decreases tokens.len(),
{
    if tokens.len() > 0 {
        lemma_counts_bounded(tokens.drop_last(), vocabulary, term);
        if occurrences(tokens, term) > 0 {
            if tokens.last() == term {
                assert(tokens[tokens.len() - 1] == term);
            } else {
                let k = choose|k: int|
                    0 <= k < tokens.drop_last().len() && tokens.drop_last()[k] == term;
                assert(tokens[k] == term);
            }
        }
    }
}

/// Counts the vocabulary terms among `tokens`.
pub fn count_terms(tokens: &Vec<Vec<char>>, vocabulary: &TermSet) -> (column: TermColumn)
    requires
        vocabulary.wf(),
    ensures
        column.counts(terms_view(tokens@), vocabulary@),
{
    let mut entries: Vec<(usize, usize)> = Vec::new();
    let mut total: usize = 0;
    let ghost all = terms_view(tokens@);
    let ghost n_terms = vocabulary@.len() as int;
    let mut i: usize = 0;
    proof {
        lemma_sorted_no_duplicates(vocabulary@);
    }
    while i < tokens.len()
        invariant
            i <= tokens@.len(),
            vocabulary.wf(),
            vocabulary@.no_duplicates(),
            all == terms_view(tokens@),
            n_terms == vocabulary@.len(),
            is_column(entries@, n_terms),
            forall|row: int|
                0 <= row < n_terms ==> #[trigger] count_in(entries@, row) == occurrences(
                    all.take(i as int),
                    vocabulary@[row],
                ),
            total == known_tokens(all.take(i as int), vocabulary@),
        decreases tokens@.len() - i,
    {
        let ghost seen = all.take(i as int);
        let ghost seen_next = all.take(i + 1);
        let ghost token = all[i as int];
        proof {
            assert(seen_next.drop_last() =~= seen);
            assert(seen_next.last() == token);
            assert(tokens@[i as int]@ == token);
            lemma_counts_bounded(seen, vocabulary@, token);
        }
        match vocabulary.position(tokens[i].as_slice()) {
            Some(row) => {
                let ghost before = entries@;
                proof {
                    assert(count_in(before, row as int) == occurrences(seen, vocabulary@[row as int]));
                }
                bump(&mut entries, row, Ghost(n_terms));
                total += 1;
                proof {
                    assert forall|other: int| 0 <= other < n_terms implies #[trigger] count_in(
                        entries@,
                        other,
                    ) == occurrences(seen_next, vocabulary@[other]) by {
                        if other != row {
                            assert(vocabulary@[other] != vocabulary@[row as int]);
                            assert(count_in(before, other) == occurrences(seen, vocabulary@[other]));
                        }
                    }
                }
            },
            None => {
                proof {
                    assert forall|other: int| 0 <= other < n_terms implies #[trigger] count_in(
                        entries@,
                        other,
                    ) == occurrences(seen_next, vocabulary@[other]) by {
                        assert(vocabulary@.contains(vocabulary@[other]));
                    }
                }
            },
        }
        i += 1;
    }
    assert(all.take(i as int) =~= all);
    TermColumn { entries, total }
}


/// No count of a column is above the column's total: a term frequency,
/// the quotient of the two, is positive and at most one.
pub proof fn lemma_entry_within_total(
    column: TermColumn,
    tokens: Seq<Seq<char>>,
    vocabulary: Seq<Seq<char>>,
    k: int,
)
    requires
        column.counts(tokens, vocabulary),
        0 <= k < column.entries@.len(),
    ensures
        0 < column.entries@[k].1 <= column.total,
{
    let row = column.entries@[k].0 as int;
    lemma_count_at_entry(column.entries@, k);
    assert(count_in(column.entries@, row) == occurrences(tokens, vocabulary[row]));
    assert(vocabulary.contains(vocabulary[row]));
    lemma_counts_bounded(tokens, vocabulary, vocabulary[row]);
}

/// The sum of the counts of a column's entries.
pub open spec fn sum_of_counts(entries: Seq<(usize, usize)>) -> nat
    decreases entries.len(),
{
    if entries.len() == 0 {
        0
    } else {
        sum_of_counts(entries.drop_last()) + entries.last().1 as nat
    }
}

/// The sum of the occurrences in `tokens` of the first `n` terms of
/// `vocabulary`.
pub open spec fn occurrences_below(tokens: Seq<Seq<char>>, vocabulary: Seq<Seq<char>>, n: int) -> nat
    decreases n,
{
    if n <= 0 {
        0
    } else {
        occurrences_below(tokens, vocabulary, n - 1) + occurrences(tokens, vocabulary[n - 1])
    }
}

/// The sum of the counts that a column holds for the rows below `n`.
pub open spec fn counts_below(entries: Seq<(usize, usize)>, n: int) -> nat
    decreases n,
{
    if n <= 0 {
        0
    } else {
        counts_below(entries, n - 1) + count_in(entries, n - 1)
    }
}

/// One more token adds one to the occurrences of the first `n` terms when
/// it is one of them, and nothing otherwise.
proof fn lemma_occurrences_step(tokens: Seq<Seq<char>>, vocabulary: Seq<Seq<char>>, n: int)
    requires
        tokens.len() > 0,
        vocabulary.no_duplicates(),
        0 <= n <= vocabulary.len(),
    ensures
        occurrences_below(tokens, vocabulary, n) == occurrences_below(
            tokens.drop_last(),
            vocabulary,
            n,
        ) + if vocabulary.take(n).contains(tokens.last()) {
            1nat
        } else {
            0nat
        },
    decreases n,
{
    if n > 0 {
        lemma_occurrences_step(tokens, vocabulary, n - 1);
        let front = vocabulary.take(n - 1);
        let upto = vocabulary.take(n);
        let t = tokens.last();
        assert(upto =~= front.push(vocabulary[n - 1]));
        if front.contains(t) {
            let i = choose|i: int| 0 <= i < front.len() && front[i] == t;
            assert(upto[i] == t);
            assert(vocabulary[i] == t);
            assert(vocabulary[n - 1] != t);
        } else if vocabulary[n - 1] == t {
            assert(upto[n - 1] == t);
        } else if upto.contains(t) {
            let i = choose|i: int| 0 <= i < upto.len() && upto[i] == t;
            assert(front[i] == t);
        }
    }
}

/// The tokens that the vocabulary knows are the occurrences of its terms,
/// summed over the terms.
proof fn lemma_known_is_sum(tokens: Seq<Seq<char>>, vocabulary: Seq<Seq<char>>)
    requires
        vocabulary.no_duplicates(),
    ensures
        known_tokens(tokens, vocabulary) == occurrences_below(
            tokens,
            vocabulary,
            vocabulary.len() as int,
        ),
    decreases tokens.len(),
{
    if tokens.len() == 0 {
        lemma_no_occurrences(tokens, vocabulary, vocabulary.len() as int);
    } else {
        lemma_known_is_sum(tokens.drop_last(), vocabulary);
        lemma_occurrences_step(tokens, vocabulary, vocabulary.len() as int);
        assert(vocabulary.take(vocabulary.len() as int) =~= vocabulary);
    }
}

/// Among no tokens no term occurs.
proof fn lemma_no_occurrences(tokens: Seq<Seq<char>>, vocabulary: Seq<Seq<char>>, n: int)
    requires
        tokens.len() == 0,
    ensures
        occurrences_below(tokens, vocabulary, n) == 0,
    decreases n,
{
    if n > 0 {
        lemma_no_occurrences(tokens, vocabulary, n - 1);
    }
}

/// The counts for the rows below `n` are those of the entries before
/// place `k`, where `k` is the place of the first entry with a row of `n`
/// or above.
proof fn lemma_counts_below(entries: Seq<(usize, usize)>, n: int, k: int)
    requires
        is_sparse(entries),
        0 <= n,
        0 <= k <= entries.len(),
        forall|j: int| 0 <= j < k ==> (#[trigger] entries[j]).0 < n,
        forall|j: int| k <= j < entries.len() ==> (#[trigger] entries[j]).0 >= n,
    ensures
        counts_below(entries, n) == sum_of_counts(entries.take(k)),
    decreases n,
{
    if n == 0 {
        assert(k == 0) by {
            if k > 0 {
                assert(entries[0].0 < 0);
            }
        }
        assert(entries.take(0) =~= Seq::<(usize, usize)>::empty());
    } else if k > 0 && entries[k - 1].0 == n - 1 {
        assert forall|j: int| 0 <= j < k - 1 implies (#[trigger] entries[j]).0 < n - 1 by {
            assert(entries[j].0 < entries[k - 1].0);
        }
        lemma_counts_below(entries, n - 1, k - 1);
        lemma_count_at_entry(entries, k - 1);
        assert(entries.take(k).drop_last() =~= entries.take(k - 1));
        assert(entries.take(k).last() == entries[k - 1]);
    } else {
        assert forall|j: int| 0 <= j < k implies (#[trigger] entries[j]).0 < n - 1 by {
            if j < k - 1 {
                assert(entries[j].0 < entries[k - 1].0);
            }
        }
        lemma_counts_below(entries, n - 1, k);
        assert(count_in(entries, n - 1) == 0) by {
            if exists|j: int| 0 <= j < entries.len() && (#[trigger] entries[j]).0 == n - 1 {
                let j = choose|j: int| 0 <= j < entries.len() && (#[trigger] entries[j]).0 == n - 1;
                if j < k {
                    assert(entries[j].0 < n - 1);
                } else {
                    assert(entries[j].0 >= n);
                }
            }
        }
    }
}

/// The total of a column is the sum of its counts: the term frequencies of
/// a document, each the quotient of a count and the total, add up to one.
pub proof fn lemma_total_is_sum(
    column: TermColumn,
    tokens: Seq<Seq<char>>,
    vocabulary: Seq<Seq<char>>,
)
    requires
        column.counts(tokens, vocabulary),
        vocabulary.no_duplicates(),
    ensures
        column.total == sum_of_counts(column.entries@),
{
    let entries = column.entries@;
    let n = vocabulary.len() as int;
    lemma_known_is_sum(tokens, vocabulary);
    lemma_counts_match(entries, tokens, vocabulary, n);
    lemma_counts_below(entries, n, entries.len() as int);
    assert(entries.take(entries.len() as int) =~= entries);
}

/// Where each row's count is the number of occurrences of its term, the
/// sums over the rows below `n` are equal.
proof fn lemma_counts_match(
    entries: Seq<(usize, usize)>,
    tokens: Seq<Seq<char>>,
    vocabulary: Seq<Seq<char>>,
    n: int,
)
    requires
        0 <= n <= vocabulary.len(),
        forall|row: int|
            0 <= row < vocabulary.len() ==> #[trigger] count_in(entries, row) == occurrences(
                tokens,
                vocabulary[row],
            ),
    ensures
        counts_below(entries, n) == occurrences_below(tokens, vocabulary, n),
    decreases n,
{
    if n > 0 {
        lemma_counts_match(entries, tokens, vocabulary, n - 1);
        assert(count_in(entries, n - 1) == occurrences(tokens, vocabulary[n - 1]));
    }
}

/// In how many of `columns` the row `row` has an entry.
pub open spec fn documents_with(columns: Seq<TermColumn>, row: int) -> nat
    decreases columns.len(),
{
    if columns.len() == 0 {
        0
    } else {
        let last: nat = if count_in(columns.last().entries@, row) > 0 {
            1
        } else {
            0
        };
        documents_with(columns.drop_last(), row) + last
    }
}

/// A term is in no more documents than there are, and it is in none
/// exactly when every column holds a zero for it.
pub proof fn lemma_document_frequency(columns: Seq<TermColumn>, row: int)
    ensures
        documents_with(columns, row) <= columns.len(),
        documents_with(columns, row) == 0 <==> forall|d: int|
            0 <= d < columns.len() ==> count_in((#[trigger] columns[d]).entries@, row) == 0,
    decreases columns.len(),
{
    if columns.len() > 0 {
        let front = columns.drop_last();
        lemma_document_frequency(front, row);
        if documents_with(columns, row) == 0 {
            assert forall|d: int| 0 <= d < columns.len() implies count_in(
                (#[trigger] columns[d]).entries@,
                row,
            ) == 0 by {
                if d < front.len() {
                    assert(front[d] == columns[d]);
                }
            }
        } else if documents_with(front, row) != 0 {
            let d = choose|d: int|
                0 <= d < front.len() && count_in((#[trigger] front[d]).entries@, row) != 0;
            assert(front[d] == columns[d]);
        }
    }
}

/// The term-document matrix in whole numbers: one count column for each
/// document, and for each term the number of documents that hold it.
#[derive(Debug)]
pub struct TermCounts {
    pub n_terms: usize,
    pub columns: Vec<TermColumn>,
    pub df: Vec<usize>,
}

impl TermCounts {
    /// Every column is a column over `n_terms` rows, and `df` holds for each
    /// term the number of columns with an entry for it.
    pub open spec fn wf(&self) -> bool {
        &&& self.df@.len() == self.n_terms
        &&& forall|d: int|
            0 <= d < self.columns@.len() ==> is_column(
                (#[trigger] self.columns@[d]).entries@,
                self.n_terms as int,
            )
        &&& forall|row: int|
            0 <= row < self.n_terms ==> #[trigger] self.df@[row] == documents_with(
                self.columns@,
                row,
            )
    }

    /// The matrix counts the documents of a corpus over a vocabulary: column
    /// `d` counts the terms of document `d`.
    pub open spec fn indexes(
        &self,
        documents: Seq<Document>,
        vocabulary: Seq<Seq<char>>,
        stop_words: Seq<Seq<char>>,
    ) -> bool {
        &&& self.wf()
        &&& self.n_terms == vocabulary.len()
        &&& self.columns@.len() == documents.len()
        &&& forall|d: int|
            0 <= d < documents.len() ==> (#[trigger] self.columns@[d]).counts(
                document_terms(documents[d], stop_words),
                vocabulary,
            )
    }

    /// The number of documents.
    pub fn n_docs(&self) -> (n: usize)
        ensures
            n == self.columns@.len(),
    {
        self.columns.len()
    }
}

/// A token that occurs is counted.
pub proof fn lemma_contained_occurs(tokens: Seq<Seq<char>>, term: Seq<char>)
    requires
        tokens.contains(term),
    ensures
        occurrences(tokens, term) > 0,
    decreases tokens.len(),
{
    let i = choose|i: int| 0 <= i < tokens.len() && tokens[i] == term;
    if i < tokens.len() - 1 {
        assert(tokens.drop_last()[i] == term);
        lemma_contained_occurs(tokens.drop_last(), term);
    }
}

/// The document frequency of a term is the number of documents it occurs
/// in: it is at most the number of documents, so that the inverse
/// document frequency, the logarithm of their quotient, is never negative;
/// and it is zero exactly for a term that occurs in no document.
pub proof fn lemma_frequency_bounds(
    matrix: TermCounts,
    documents: Seq<Document>,
    vocabulary: Seq<Seq<char>>,
    stop_words: Seq<Seq<char>>,
    row: int,
)
    requires
        matrix.indexes(documents, vocabulary, stop_words),
        0 <= row < vocabulary.len(),
    ensures
        0 <= matrix.df@[row] <= documents.len(),
        matrix.df@[row] == 0 <==> forall|d: int|
            0 <= d < documents.len() ==> !(#[trigger] document_terms(
                documents[d],
                stop_words,
            )).contains(vocabulary[row]),
{
    lemma_document_frequency(matrix.columns@, row);
    assert(matrix.df@[row] == documents_with(matrix.columns@, row));
    assert forall|d: int| 0 <= d < documents.len() implies (count_in(
        matrix.columns@[d].entries@,
        row,
    ) == 0 <==> !(#[trigger] document_terms(documents[d], stop_words)).contains(
        vocabulary[row],
    )) by {
        let tokens = document_terms(documents[d], stop_words);
        assert(matrix.columns@[d].counts(tokens, vocabulary));
        assert(count_in(matrix.columns@[d].entries@, row) == occurrences(tokens, vocabulary[row]));
        lemma_counts_bounded(tokens, vocabulary, vocabulary[row]);
        if tokens.contains(vocabulary[row]) {
            lemma_contained_occurs(tokens, vocabulary[row]);
        }
    }
}

/// Every term of a vocabulary that was built from the corpus is in at
/// least one document, and in no more than there are: its document
/// frequency is never zero.
pub proof fn lemma_corpus_terms_are_frequent(
    matrix: TermCounts,
    documents: Seq<Document>,
    vocabulary: Seq<Seq<char>>,
    stop_words: Seq<Seq<char>>,
    row: int,
)
    requires
        matrix.indexes(documents, vocabulary, stop_words),
        forall|term: Seq<char>|
            vocabulary.contains(term) <==> corpus_has(documents, stop_words, term),
        0 <= row < vocabulary.len(),
    ensures
        1 <= matrix.df@[row] <= documents.len(),
{
    lemma_frequency_bounds(matrix, documents, vocabulary, stop_words, row);
    assert(vocabulary.contains(vocabulary[row]));
    assert(corpus_has(documents, stop_words, vocabulary[row]));
}

/// Whether the weights of column `d` all vanish: the document has no
/// known term, or each of its terms is in every document, so that each
/// has the inverse document frequency zero. Such a column has no length
/// and is not normalised.
pub open spec fn weights_vanish(matrix: TermCounts, d: int) -> bool {
    forall|k: int|
        0 <= k < matrix.columns@[d].entries@.len() ==> matrix.df@[(
        #[trigger] matrix.columns@[d].entries@[k]).0 as int] == matrix.columns@.len()
}

/// Tells whether the weights of column `d` all vanish.
pub fn column_vanishes(matrix: &TermCounts, d: usize) -> (r: bool)
    requires
        matrix.wf(),
        d < matrix.columns@.len(),
    ensures
        r == weights_vanish(*matrix, d as int),
{
    let entries = &matrix.columns[d].entries;
    let n_docs = matrix.columns.len();
    assert(is_column(matrix.columns@[d as int].entries@, matrix.n_terms as int));
    let mut k: usize = 0;
    while k < entries.len()
        invariant
            k <= entries@.len(),
            entries@ == matrix.columns@[d as int].entries@,
            n_docs == matrix.columns@.len(),
            matrix.df@.len() == matrix.n_terms,
            is_column(entries@, matrix.n_terms as int),
            forall|j: int| 0 <= j < k ==> matrix.df@[(#[trigger] entries@[j]).0 as int] == n_docs,
        decreases entries@.len() - k,
    {
        if matrix.df[entries[k].0] != n_docs {
            return false;
        }
        k += 1;
    }
    true
}

/// Rows that ascend from each entry to the next ascend throughout.
proof fn lemma_rows_ascend(entries: Seq<(usize, usize)>, j: int, k: int)
    requires
        forall|i: int| 0 <= i < entries.len() - 1 ==> (#[trigger] entries[i]).0 < entries[i + 1].0,
        0 <= j < k < entries.len(),
    ensures
        entries[j].0 < entries[k].0,
    decreases k - j,
{
    if j + 1 < k {
        lemma_rows_ascend(entries, j + 1, k);
    }
}

/// Tells whether `entries` is a sparse column over `n_terms` rows.
pub fn is_valid_column(entries: &Vec<(usize, usize)>, n_terms: usize) -> (r: bool)
    ensures
        r == is_column(entries@, n_terms as int),
{
    let mut k: usize = 0;
    while k < entries.len()
        invariant
            k <= entries@.len(),
            forall|i: int| 0 <= i < k ==> (#[trigger] entries@[i]).1 > 0 && entries@[i].0 < n_terms,
            forall|i: int| 0 <= i < k - 1 ==> (#[trigger] entries@[i]).0 < entries@[i + 1].0,
        decreases entries@.len() - k,
    {
        if entries[k].1 == 0 || entries[k].0 >= n_terms {
            return false;
        }
        if k > 0 && entries[k - 1].0 >= entries[k].0 {
            assert(!(entries@[k - 1].0 < entries@[k as int].0));
            return false;
        }
        k += 1;
    }
    proof {
        assert forall|j: int, i: int| 0 <= j < i < entries@.len() implies (#[trigger] entries@[j]).0
            < (#[trigger] entries@[i]).0 by {
            lemma_rows_ascend(entries@, j, i);
        }
    }
    true
}

impl TermCounts {
    /// Tells whether the matrix is well formed. The document frequencies
    /// are counted anew and compared, so this takes as long as building
    /// them.
    pub fn is_well_formed(&self) -> (r: bool)
        ensures
            r == self.wf(),
    {
        if self.df.len() != self.n_terms {
            return false;
        }
        let mut d: usize = 0;
        while d < self.columns.len()
            invariant
                d <= self.columns@.len(),
                forall|c: int|
                    0 <= c < d ==> is_column(
                        (#[trigger] self.columns@[c]).entries@,
                        self.n_terms as int,
                    ),
            decreases self.columns@.len() - d,
        {
            if !is_valid_column(&self.columns[d].entries, self.n_terms) {
                return false;
            }
            d += 1;
        }
        let mut df: Vec<usize> = Vec::new();
        let mut row: usize = 0;
        while row < self.n_terms
            invariant
                row <= self.n_terms,
                df@.len() == row,
                forall|r: int| 0 <= r < row ==> #[trigger] df@[r] == 0,
            decreases self.n_terms - row,
        {
            df.push(0);
            row += 1;
        }
        let mut d: usize = 0;
        while d < self.columns.len()
            invariant
                d <= self.columns@.len(),
                df@.len() == self.n_terms,
                forall|c: int|
                    0 <= c < self.columns@.len() ==> is_column(
                        (#[trigger] self.columns@[c]).entries@,
                        self.n_terms as int,
                    ),
                forall|r: int|
                    0 <= r < self.n_terms ==> #[trigger] df@[r] == documents_with(
                        self.columns@.take(d as int),
                        r,
                    ),
            decreases self.columns@.len() - d,
        {
            let ghost before = self.columns@.take(d as int);
            add_to_frequencies(&mut df, &self.columns[d], Ghost(before));
            assert(before.push(self.columns@[d as int]) =~= self.columns@.take(d + 1));
            d += 1;
        }
        assert(self.columns@.take(d as int) =~= self.columns@);
        let mut row: usize = 0;
        while row < self.n_terms
            invariant
                row <= self.n_terms,
                df@.len() == self.n_terms,
                self.df@.len() == self.n_terms,
                forall|r: int|
                    0 <= r < self.n_terms ==> #[trigger] df@[r] == documents_with(self.columns@, r),
                forall|r: int|
                    0 <= r < row ==> #[trigger] self.df@[r] == documents_with(self.columns@, r),
            decreases self.n_terms - row,
        {
            if self.df[row] != df[row] {
                return false;
            }
            row += 1;
        }
        true
    }
}

/// What can be wrong with a built index.
#[derive(Clone, Copy, Debug, PartialEq, Eq, Structural)]
pub enum IndexError {
    /// The corpus is empty or its documents gave no terms. The index is
    /// built all the same; it is empty and answers every query with
    /// nothing.
    IndexBuildFailed,
}

/// Tells whether an index holds anything: it does when it has a term and
/// a document.
pub fn check_index(matrix: &TermCounts) -> (r: Result<(), IndexError>)
    ensures
        r is Ok <==> matrix.n_terms > 0 && matrix.columns@.len() > 0,
        r is Err ==> r->Err_0 == IndexError::IndexBuildFailed,
{
    if matrix.n_terms == 0 || matrix.columns.len() == 0 {
        Err(IndexError::IndexBuildFailed)
    } else {
        Ok(())
    }
}

/// Counts one more document for every term of `column`.
pub(crate) fn add_to_frequencies(df: &mut Vec<usize>, column: &TermColumn, Ghost(before): Ghost<Seq<TermColumn>>)
    requires
        is_column(column.entries@, old(df)@.len() as int),
        before.len() < usize::MAX,
        forall|row: int|
            0 <= row < old(df)@.len() ==> #[trigger] old(df)@[row] == documents_with(before, row),
    ensures
        final(df)@.len() == old(df)@.len(),
        forall|row: int|
            0 <= row < final(df)@.len() ==> #[trigger] final(df)@[row] == documents_with(
                before.push(*column),
                row,
            ),
{
    let ghost n_terms = df@.len() as int;
    let ghost entries = column.entries@;
    let mut k: usize = 0;
    while k < column.entries.len()
        invariant
            k <= entries.len(),
            entries == column.entries@,
            df@.len() == n_terms,
            is_column(entries, n_terms),
            before.len() < usize::MAX,
            forall|row: int|
                0 <= row < n_terms ==> #[trigger] df@[row] == documents_with(before, row) + (if exists|
                    j: int,
                | 0 <= j < k && (#[trigger] entries[j]).0 == row {
                    1int
                } else {
                    0int
                }),
        decreases entries.len() - k,
    {
        let row = column.entries[k].0;
        let ghost old_df = df@;
        proof {
            lemma_document_frequency(before, row as int);
            if exists|j: int| 0 <= j < k && (#[trigger] entries[j]).0 == row {
                let j = choose|j: int| 0 <= j < k && (#[trigger] entries[j]).0 == row;
                assert(entries[j].0 < entries[k as int].0);
            }
        }
        let seen = df[row];
        df.set(row, seen + 1);
        proof {
            assert forall|other: int| 0 <= other < n_terms implies #[trigger] df@[other]
                == documents_with(before, other) + (if exists|j: int|
                0 <= j < k + 1 && (#[trigger] entries[j]).0 == other {
                1int
            } else {
                0int
            }) by {
                if other == row {
                    assert(entries[k as int].0 == other);
                } else {
                    assert(df@[other] == old_df[other]);
                    if exists|j: int| 0 <= j < k + 1 && (#[trigger] entries[j]).0 == other {
                        let j = choose|j: int| 0 <= j < k + 1 && (#[trigger] entries[j]).0 == other;
                        assert(j < k);
                    }
                }
            }
        }
        k += 1;
    }
    proof {
        let after = before.push(*column);
        assert(after.drop_last() =~= before);
        assert(after.last() == *column);
        assert forall|row: int| 0 <= row < df@.len() implies #[trigger] df@[row] == documents_with(
            after,
            row,
        ) by {
            if exists|j: int| 0 <= j < k && (#[trigger] entries[j]).0 == row {
                let j = choose|j: int| 0 <= j < k && (#[trigger] entries[j]).0 == row;
                lemma_count_at_entry(entries, j);
            }
        }
    }
}

/// Builds the term counts of a corpus over a vocabulary. An empty corpus or
/// an empty vocabulary gives an empty matrix, not an error.
pub fn build_term_document_matrix(
    documents: &Vec<Document>,
    vocabulary: &TermSet,
    stop_words: &TermSet,
) -> (matrix: TermCounts)
    requires
        vocabulary.wf(),
        stop_words.wf(),
    ensures
        matrix.indexes(documents@, vocabulary@, stop_words@),
{
    let n_terms = vocabulary.len();
    let mut df: Vec<usize> = Vec::new();
    let mut row: usize = 0;
    while row < n_terms
        invariant
            row <= n_terms,
            df@.len() == row,
            forall|r: int| 0 <= r < row ==> #[trigger] df@[r] == 0,
        decreases n_terms - row,
    {
        df.push(0);
        row += 1;
    }
    let mut columns: Vec<TermColumn> = Vec::new();
    let mut d: usize = 0;
    while d < documents.len()
        invariant
            d <= documents@.len(),
            vocabulary.wf(),
            stop_words.wf(),
            n_terms == vocabulary@.len(),
            df@.len() == n_terms,
            columns@.len() == d,
            forall|c: int|
                0 <= c < d ==> (#[trigger] columns@[c]).counts(
                    document_terms(documents@[c], stop_words@),
                    vocabulary@,
                ),
            forall|r: int| 0 <= r < n_terms ==> #[trigger] df@[r] == documents_with(columns@, r),
        decreases documents@.len() - d,
    {
        let tokens = tokenize_document(&documents[d], stop_words);
        let column = count_terms(&tokens, vocabulary);
        let ghost before = columns@;
        add_to_frequencies(&mut df, &column, Ghost(before));
        columns.push(column);
        proof {
            assert forall|c: int| 0 <= c < d + 1 implies (#[trigger] columns@[c]).counts(
                document_terms(documents@[c], stop_words@),
                vocabulary@,
            ) by {
                if c < d {
                    assert(columns@[c] == before[c]);
                }
            }
        }
        d += 1;
    }
    TermCounts { n_terms, columns, df }
}


/// The document frequencies depend on the entries of the columns only.
pub proof fn lemma_frequency_of_entries(a: Seq<TermColumn>, b: Seq<TermColumn>, row: int)
    requires
        a.len() == b.len(),
        forall|d: int| 0 <= d < a.len() ==> (#[trigger] a[d]).entries@ == b[d].entries@,
    ensures
        documents_with(a, row) == documents_with(b, row),
    decreases a.len(),
{
    if a.len() > 0 {
        let fa = a.drop_last();
        let fb = b.drop_last();
        assert forall|d: int| 0 <= d < fa.len() implies (#[trigger] fa[d]).entries@
            == fb[d].entries@ by {
            assert(a[d].entries@ == b[d].entries@);
        }
        lemma_frequency_of_entries(fa, fb, row);
        assert(a[a.len() - 1].entries@ == b[a.len() - 1].entries@);
    }
}

} // verus!
