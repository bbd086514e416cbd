//! The whole-number side of query evaluation: the query's term counts, the
//! documents that can match it, and the order in which matches are returned.

use vstd::prelude::*;
use crate::counts::{
    count_in, count_terms, is_sparse, known_tokens, lemma_count_at_entry, lemma_counts_bounded,
    occurrences, TermColumn, TermCounts,
};
use crate::document::Document;
use crate::ranking::{is_ranking, rank};
use crate::terms::TermSet;
use crate::text::lower;
use crate::tokenizer::{lemma_empty_text_has_no_terms, tokenize_lowered, tokens_of};

verus! {

/// How documents are scored against a query.
#[derive(Clone, Copy, Debug, PartialEq, Eq, Structural)]
pub enum SearchMode {
    /// Cosine similarity on the tf-idf matrix.
    TfIdf,
    /// Cosine similarity in the latent space of the truncated SVD.
    Lsi,
    /// Cosine similarity against the low-rank reconstruction.
    LowRank,
}

/// What can be wrong with a query.
#[derive(Clone, Copy, Debug, PartialEq, Eq, Structural)]
pub enum QueryError {
    /// The mode is none of `tfidf`, `lsi`, `lowrank`.
    UnknownMode,
}

/// The mode that a name stands for, if any.
pub open spec fn mode_named(name: Seq<char>) -> Option<SearchMode> {
    if name == "tfidf"@ {
        Some(SearchMode::TfIdf)
    } else if name == "lsi"@ {
        Some(SearchMode::Lsi)
    } else if name == "lowrank"@ {
        Some(SearchMode::LowRank)
    } else {
        None
    }
}

/// Reads a mode from its name.
pub fn parse_mode(name: &str) -> (r: Result<SearchMode, QueryError>)
    ensures
        match mode_named(name@) {
            Some(mode) => r == Ok::<SearchMode, QueryError>(mode),
            None => r == Err::<SearchMode, QueryError>(QueryError::UnknownMode),
        },
{
    let name = String::from_str(name);
    if name == String::from_str("tfidf") {
        Ok(SearchMode::TfIdf)
    } else if name == String::from_str("lsi") {
        Ok(SearchMode::Lsi)
    } else if name == String::from_str("lowrank") {
        Ok(SearchMode::LowRank)
    } else {
        Err(QueryError::UnknownMode)
    }
}

/// The number of results of a request that names none.
pub const DEFAULT_LIMIT: usize = 10;

/// A search request as it arrives: the query text and what else the
/// caller chose to say.
#[derive(Debug)]
pub struct SearchRequest {
    pub query: String,
    /// How many results at most; ten where nothing is said.
    pub limit: Option<usize>,
    /// The name of the mode; tf-idf where nothing is said.
    pub mode: Option<String>,
    /// The rank for the latent modes; that of the decomposition where
    /// nothing is said.
    pub k: Option<usize>,
}

/// A search request with its choices settled.
#[derive(Clone, Copy, Debug, PartialEq, Eq, Structural)]
pub struct SearchPlan {
    pub mode: SearchMode,
    pub limit: usize,
    pub k: Option<usize>,
}

/// Settles the choices of a request. A request that names no mode is
/// scored by tf-idf; one that names an unknown mode is refused.
pub fn plan_search(request: &SearchRequest) -> (r: Result<SearchPlan, QueryError>)
    ensures
        r == match request.mode {
            None => Ok::<SearchPlan, QueryError>(
                SearchPlan {
                    mode: SearchMode::TfIdf,
                    limit: match request.limit {
                        Some(n) => n,
                        None => DEFAULT_LIMIT,
                    },
                    k: request.k,
                },
            ),
            Some(name) => match mode_named(name@) {
                Some(mode) => Ok::<SearchPlan, QueryError>(
                    SearchPlan {
                        mode,
                        limit: match request.limit {
                            Some(n) => n,
                            None => DEFAULT_LIMIT,
                        },
                        k: request.k,
                    },
                ),
                None => Err::<SearchPlan, QueryError>(QueryError::UnknownMode),
            },
        },
{
    let limit = match request.limit {
        Some(n) => n,
        None => DEFAULT_LIMIT,
    };
    match &request.mode {
        None => Ok(SearchPlan { mode: SearchMode::TfIdf, limit, k: request.k }),
        Some(name) => match parse_mode(name.as_str()) {
            Ok(mode) => Ok(SearchPlan { mode, limit, k: request.k }),
            Err(e) => Err(e),
        },
    }
}

/// The place of the first document with the given identifier, if there
/// is one. Documents that share an identifier stay distinct; a request by
/// identifier gets the first of them.
pub fn find_document(documents: &Vec<Document>, id: i64) -> (r: Option<usize>)
    ensures
        match r {
            Some(i) => i < documents@.len() && documents@[i as int].id == id && forall|j: int|
                0 <= j < i ==> (#[trigger] documents@[j]).id != id,
            None => forall|j: int| 0 <= j < documents@.len() ==> (#[trigger] documents@[j]).id != id,
        },
{
    let mut i: usize = 0;
    while i < documents.len()
        invariant
            i <= documents@.len(),
            forall|j: int| 0 <= j < i ==> (#[trigger] documents@[j]).id != id,
        decreases documents@.len() - i,
    {
        if documents[i].id == id {
            return Some(i);
        }
        i += 1;
    }
    None
}

/// The size of an index, as a statistics request reports it.
#[derive(Clone, Copy, Debug, PartialEq, Eq, Structural)]
pub struct Stats {
    pub document_count: usize,
    pub vocabulary_size: usize,
}

/// The size of an index.
pub fn stats(matrix: &TermCounts) -> (s: Stats)
    ensures
        s.document_count == matrix.columns@.len(),
        s.vocabulary_size == matrix.n_terms,
{
    Stats { document_count: matrix.columns.len(), vocabulary_size: matrix.n_terms }
}

/// The rank used for a query: the requested one, but no more than the
/// decomposition has.
pub fn effective_rank(requested: Option<usize>, rank: usize) -> (k: usize)
    ensures
        k == match requested {
            Some(r) => if r <= rank { r } else { rank },
            None => rank,
        },
{
    match requested {
        Some(r) => if r <= rank {
            r
        } else {
            rank
        },
        None => rank,
    }
}

/// Counts the vocabulary terms of a query. The query goes through the same
/// tokeniser as the documents.
pub fn query_terms(query: &str, vocabulary: &TermSet, stop_words: &TermSet) -> (column: TermColumn)
    requires
        vocabulary.wf(),
        stop_words.wf(),
    ensures
        column.counts(tokens_of(query@, stop_words@), vocabulary@),
{
    let lowered = lower(query);
    let tokens = tokenize_lowered(lowered.as_str(), stop_words);
    count_terms(&tokens, vocabulary)
}

/// Whether two columns hold an entry for a common row.
pub open spec fn overlaps(a: Seq<(usize, usize)>, b: Seq<(usize, usize)>) -> bool {
    exists|row: int| count_in(a, row) > 0 && #[trigger] count_in(b, row) > 0
}

/// Decides whether two columns hold an entry for a common row.
pub fn shares_term(a: &Vec<(usize, usize)>, b: &Vec<(usize, usize)>) -> (r: bool)
    requires
        is_sparse(a@),
        is_sparse(b@),
    ensures
        r == overlaps(a@, b@),
{
    let mut i: usize = 0;
    let mut j: usize = 0;
    while i < a.len() && j < b.len()
        invariant
            i <= a@.len(),
            j <= b@.len(),
            is_sparse(a@),
            is_sparse(b@),
            forall|x: int, y: int|
                0 <= x < i && 0 <= y < b@.len() ==> (#[trigger] a@[x]).0 != (#[trigger] b@[y]).0,
            forall|x: int, y: int|
                0 <= x < a@.len() && 0 <= y < j ==> (#[trigger] a@[x]).0 != (#[trigger] b@[y]).0,
        decreases a@.len() - i + b@.len() - j,
    {
        let row_a = a[i].0;
        let row_b = b[j].0;
        if row_a == row_b {
            proof {
                lemma_count_at_entry(a@, i as int);
                lemma_count_at_entry(b@, j as int);
                assert(count_in(a@, row_a as int) > 0 && count_in(b@, row_a as int) > 0);
            }
            return true;
        } else if row_a < row_b {
            proof {
                assert forall|y: int| 0 <= y < b@.len() implies a@[i as int].0 != (#[trigger] b@[y]).0 by {
                    if y > j {
                        assert(b@[j as int].0 < b@[y].0);
                    }
                }
            }
            i += 1;
        } else {
            proof {
                assert forall|x: int| 0 <= x < a@.len() implies (#[trigger] a@[x]).0 != b@[j as int].0 by {
                    if x > i {
                        assert(a@[i as int].0 < a@[x].0);
                    }
                }
            }
            j += 1;
        }
    }
    proof {
        if overlaps(a@, b@) {
            let row = choose|row: int| count_in(a@, row) > 0 && #[trigger] count_in(b@, row) > 0;
            let x = choose|x: int| 0 <= x < a@.len() && (#[trigger] a@[x]).0 == row;
            let y = choose|y: int| 0 <= y < b@.len() && (#[trigger] b@[y]).0 == row;
            assert(a@[x].0 == b@[y].0);
        }
    }
    false
}


/// Whether document `d` can match the query. Under tf-idf scoring a
/// document is a candidate when it shares a term with the query; in the
/// two latent modes every document is, once the query has a known term.
pub open spec fn is_candidate(
    matrix: TermCounts,
    query: TermColumn,
    mode: SearchMode,
    d: int,
) -> bool {
    match mode {
        SearchMode::TfIdf => overlaps(query.entries@, matrix.columns@[d].entries@),
        SearchMode::Lsi => query.total > 0,
        SearchMode::LowRank => query.total > 0,
    }
}

/// Whether `candidates` lists, in ascending order, exactly the documents
/// that can match the query.
pub open spec fn are_candidates(
    matrix: TermCounts,
    query: TermColumn,
    mode: SearchMode,
    candidates: Seq<usize>,
) -> bool {
    &&& forall|i: int, j: int|
        0 <= i < j < candidates.len() ==> (#[trigger] candidates[i]) < (#[trigger] candidates[j])
    &&& forall|d: usize| #[trigger]
        candidates.contains(d) <==> (d < matrix.columns@.len() && is_candidate(
            matrix,
            query,
            mode,
            d as int,
        ))
}

/// Lists the documents that can match a query.
pub fn candidate_documents(matrix: &TermCounts, query: &TermColumn, mode: SearchMode) -> (candidates:
    Vec<usize>)
    requires
        matrix.wf(),
        is_sparse(query.entries@),
    ensures
        are_candidates(*matrix, *query, mode, candidates@),
{
    let mut candidates: Vec<usize> = Vec::new();
    let mut d: usize = 0;
    while d < matrix.columns.len()
        invariant
            d <= matrix.columns@.len(),
            matrix.wf(),
            is_sparse(query.entries@),
            forall|i: int| 0 <= i < candidates@.len() ==> (#[trigger] candidates@[i]) < d,
            forall|i: int, j: int|
                0 <= i < j < candidates@.len() ==> (#[trigger] candidates@[i]) < (
                #[trigger] candidates@[j]),
            forall|c: usize| #[trigger]
                candidates@.contains(c) <==> (c < d && is_candidate(*matrix, *query, mode, c as int)),
        decreases matrix.columns@.len() - d,
    {
        let ghost before = candidates@;
        let matches = match mode {
            SearchMode::TfIdf => {
                assert(is_sparse(matrix.columns@[d as int].entries@));
                shares_term(&query.entries, &matrix.columns[d].entries)
            },
            SearchMode::Lsi => query.total > 0,
            SearchMode::LowRank => query.total > 0,
        };
        if matches {
            candidates.push(d);
            proof {
                assert(candidates@[before.len() as int] == d);
                assert forall|c: usize| #[trigger]
                    candidates@.contains(c) <==> (c < d + 1 && is_candidate(
                        *matrix,
                        *query,
                        mode,
                        c as int,
                    )) by {
                    if before.contains(c) {
                        let k = choose|k: int| 0 <= k < before.len() && before[k] == c;
                        assert(candidates@[k] == c);
                    }
                    if candidates@.contains(c) {
                        let k = choose|k: int| 0 <= k < candidates@.len() && candidates@[k] == c;
                        if k < before.len() {
                            assert(before[k] == c);
                        }
                    }
                }
            }
        }
        d += 1;
    }
    candidates
}

/// A query none of whose tokens is in the vocabulary has an empty column.
pub proof fn lemma_unknown_tokens_count_nothing(
    tokens: Seq<Seq<char>>,
    vocabulary: Seq<Seq<char>>,
    query: TermColumn,
)
    requires
        query.counts(tokens, vocabulary),
        forall|i: int| 0 <= i < tokens.len() ==> !vocabulary.contains(#[trigger] tokens[i]),
    ensures
        query.total == 0,
        query.entries@.len() == 0,
{
    lemma_none_known(tokens, vocabulary);
    if query.entries@.len() > 0 {
        let row = query.entries@[0].0 as int;
        lemma_count_at_entry(query.entries@, 0);
        assert(count_in(query.entries@, row) == occurrences(tokens, vocabulary[row]));
        lemma_counts_bounded(tokens, vocabulary, vocabulary[row]);
        let i = choose|i: int| 0 <= i < tokens.len() && tokens[i] == vocabulary[row];
        assert(vocabulary.contains(tokens[i]));
    }
}

/// Where no token is in the vocabulary, no token is known.
proof fn lemma_none_known(tokens: Seq<Seq<char>>, vocabulary: Seq<Seq<char>>)
    requires
        forall|i: int| 0 <= i < tokens.len() ==> !vocabulary.contains(#[trigger] tokens[i]),
    ensures
        known_tokens(tokens, vocabulary) == 0,
    decreases tokens.len(),
{
    if tokens.len() > 0 {
        let front = tokens.drop_last();
        assert forall|i: int| 0 <= i < front.len() implies !vocabulary.contains(
            #[trigger] front[i],
        ) by {
            assert(front[i] == tokens[i]);
        }
        lemma_none_known(front, vocabulary);
        assert(tokens.last() == tokens[tokens.len() - 1]);
    }
}

/// A query without tokens, or with none that the vocabulary knows, finds
/// nothing in any mode: no document is a candidate, and the ranking of no
/// candidates is empty.
pub proof fn lemma_unknown_query_finds_nothing(
    tokens: Seq<Seq<char>>,
    vocabulary: Seq<Seq<char>>,
    query: TermColumn,
    matrix: TermCounts,
    mode: SearchMode,
    candidates: Seq<usize>,
    keys: Seq<i64>,
    limit: int,
    order: Seq<usize>,
)
    requires
        query.counts(tokens, vocabulary),
        forall|i: int| 0 <= i < tokens.len() ==> !vocabulary.contains(#[trigger] tokens[i]),
        are_candidates(matrix, query, mode, candidates),
        keys.len() == candidates.len(),
        is_ranking(keys, limit, order),
    ensures
        candidates.len() == 0,
        order.len() == 0,
{
    lemma_unknown_tokens_count_nothing(tokens, vocabulary, query);
    if candidates.len() > 0 {
        let d = candidates[0];
        assert(candidates.contains(d));
        assert(is_candidate(matrix, query, mode, d as int));
        if mode == SearchMode::TfIdf {
            let row = choose|row: int|
                count_in(query.entries@, row) > 0 && #[trigger] count_in(
                    matrix.columns@[d as int].entries@,
                    row,
                ) > 0;
            assert(count_in(query.entries@, row) == 0);
        }
    }
    if order.len() > 0 {
        assert(order[0] < keys.len());
    }
}

/// The empty query finds nothing: a text without tokens has no candidates
/// and an empty ranking, whatever the mode.
pub proof fn lemma_empty_query_finds_nothing(
    vocabulary: Seq<Seq<char>>,
    query: TermColumn,
    matrix: TermCounts,
    mode: SearchMode,
    candidates: Seq<usize>,
    keys: Seq<i64>,
    limit: int,
    order: Seq<usize>,
)
    requires
        query.counts(Seq::<Seq<char>>::empty(), vocabulary),
        are_candidates(matrix, query, mode, candidates),
        keys.len() == candidates.len(),
        is_ranking(keys, limit, order),
    ensures
        candidates.len() == 0,
        order.len() == 0,
{
    lemma_unknown_query_finds_nothing(
        Seq::<Seq<char>>::empty(),
        vocabulary,
        query,
        matrix,
        mode,
        candidates,
        keys,
        limit,
        order,
    );
}


/// Whether `results` answers a query whose terms are counted in `column`:
/// `candidates` are the documents that can match, `keys` their scores as
/// `score` gives them, `order` the ranking of the candidates by these
/// keys, cut to `limit` places; and `results` lists, in that order, each
/// ranked document with its key.
pub open spec fn answers<F: Fn(&TermColumn, usize) -> i64>(
    results: Seq<(usize, i64)>,
    column: TermColumn,
    matrix: TermCounts,
    mode: SearchMode,
    limit: int,
    score: F,
    candidates: Seq<usize>,
    keys: Seq<i64>,
    order: Seq<usize>,
) -> bool {
    &&& are_candidates(matrix, column, mode, candidates)
    &&& keys.len() == candidates.len()
    &&& forall|i: int|
        0 <= i < keys.len() ==> score.ensures((&column, #[trigger] candidates[i]), keys[i])
    &&& is_ranking(keys, limit, order)
    &&& results.len() == order.len()
    &&& forall|i: int|
        0 <= i < results.len() ==> #[trigger] results[i] == (
            candidates[order[i] as int],
            keys[order[i] as int],
        )
}

/// Answers a query: counts its terms, finds the documents that can match
/// it, has each scored by `score`, and returns the best `limit` of them,
/// the highest score first and equal scores in the order of the
/// documents. A score is a whole-number key that orders as the score
/// does. A query without a term that the vocabulary knows, the empty
/// query among them, gets the empty answer.
pub fn search<F>(
    query: &str,
    vocabulary: &TermSet,
    stop_words: &TermSet,
    matrix: &TermCounts,
    mode: SearchMode,
    limit: usize,
    score: F,
) -> (results: Vec<(usize, i64)>) where F: Fn(&TermColumn, usize) -> i64
    requires
        vocabulary.wf(),
        stop_words.wf(),
        matrix.wf(),
        forall|column: &TermColumn, d: usize|
            d < matrix.columns@.len() ==> #[trigger] score.requires((column, d)),
    ensures
        exists|column: TermColumn, candidates: Seq<usize>, keys: Seq<i64>, order: Seq<usize>|
            column.counts(tokens_of(query@, stop_words@), vocabulary@) && #[trigger] answers(
                results@,
                column,
                *matrix,
                mode,
                limit as int,
                score,
                candidates,
                keys,
                order,
            ),
        results@.len() <= limit,
        results@.len() <= matrix.columns@.len(),
        (forall|i: int|
            0 <= i < tokens_of(query@, stop_words@).len() ==> !vocabulary@.contains(
                #[trigger] tokens_of(query@, stop_words@)[i],
            )) ==> results@.len() == 0,
        query@.len() == 0 ==> results@.len() == 0,
{
    let column = query_terms(query, vocabulary, stop_words);
    let candidates = candidate_documents(matrix, &column, mode);
    let mut keys: Vec<i64> = Vec::new();
    let mut i: usize = 0;
    while i < candidates.len()
        invariant
            i <= candidates@.len(),
            keys@.len() == i,
            are_candidates(*matrix, column, mode, candidates@),
            forall|column: &TermColumn, d: usize|
                d < matrix.columns@.len() ==> #[trigger] score.requires((column, d)),
            forall|j: int|
                0 <= j < i ==> score.ensures((&column, #[trigger] candidates@[j]), keys@[j]),
        decreases candidates@.len() - i,
    {
        let d = candidates[i];
        assert(candidates@.contains(d));
        let key = score(&column, d);
        keys.push(key);
        i += 1;
    }
    let order = rank(&keys, limit);
    let mut results: Vec<(usize, i64)> = Vec::new();
    let mut p: usize = 0;
    while p < order.len()
        invariant
            p <= order@.len(),
            results@.len() == p,
            keys@.len() == candidates@.len(),
            is_ranking(keys@, limit as int, order@),
            forall|j: int|
                0 <= j < p ==> #[trigger] results@[j] == (
                    candidates@[order@[j] as int],
                    keys@[order@[j] as int],
                ),
        decreases order@.len() - p,
    {
        let at = order[p];
        results.push((candidates[at], keys[at]));
        p += 1;
    }
    proof {
        assert(answers(
            results@,
            column,
            *matrix,
            mode,
            limit as int,
            score,
            candidates@,
            keys@,
            order@,
        ));
        lemma_candidates_bounded(*matrix, column, mode, candidates@);
        if query@.len() == 0 {
            assert(query@ =~= Seq::<char>::empty());
            lemma_empty_text_has_no_terms(stop_words@);
        }
        if forall|i: int|
            0 <= i < tokens_of(query@, stop_words@).len() ==> !vocabulary@.contains(
                #[trigger] tokens_of(query@, stop_words@)[i],
            ) {
            lemma_unknown_query_finds_nothing(
                tokens_of(query@, stop_words@),
                vocabulary@,
                column,
                *matrix,
                mode,
                candidates@,
                keys@,
                limit as int,
                order@,
            );
        }
    }
    results
}

/// There are no more candidates than documents.
pub proof fn lemma_candidates_bounded(
    matrix: TermCounts,
    query: TermColumn,
    mode: SearchMode,
    candidates: Seq<usize>,
)
    requires
        are_candidates(matrix, query, mode, candidates),
    ensures
        candidates.len() <= matrix.columns@.len(),
{
    assert forall|i: int| 0 <= i < candidates.len() implies (#[trigger] candidates[i])
        < matrix.columns@.len() by {
        assert(candidates.contains(candidates[i]));
    }
    lemma_ascending_bounded(candidates, matrix.columns@.len() as int);
}

/// A strictly ascending sequence of numbers below `bound` has at most
/// `bound` members.
proof fn lemma_ascending_bounded(s: Seq<usize>, bound: int)
    requires
        0 <= bound,
        forall|i: int, j: int| 0 <= i < j < s.len() ==> (#[trigger] s[i]) < (#[trigger] s[j]),
        forall|i: int| 0 <= i < s.len() ==> (#[trigger] s[i]) < bound,
    ensures
        s.len() <= bound,
    decreases s.len(),
{
    if s.len() > 0 {
        let front = s.drop_last();
        let last = s[s.len() - 1];
        assert forall|i: int| 0 <= i < front.len() implies (#[trigger] front[i]) < last by {
            assert(s[i] < s[s.len() - 1]);
        }
        lemma_ascending_bounded(front, last as int);
    }
}

} // verus!
