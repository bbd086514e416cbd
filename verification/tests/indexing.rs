use lsi_search::counts::{build_term_document_matrix, column_vanishes, is_valid_column};
use lsi_search::document::Document;
use lsi_search::terms::TermSet;
use lsi_search::text::lower;
use lsi_search::tokenizer::{build_vocabulary, tokenize};

fn doc(id: i64, text: &str) -> Document {
    Document { id, title: String::new(), url: String::new(), text: text.to_string() }
}

fn stop_words(words: &[&str]) -> TermSet {
    let mut set = TermSet::new();
    for w in words {
        set.insert(w.chars().collect());
    }
    set
}

fn cats_and_dogs() -> Vec<Document> {
    vec![doc(1, "Cats and dogs"), doc(2, "Dogs bark")]
}

#[test]
fn tokenize_filters_and_stems() {
    let stop = stop_words(&["and"]);
    assert_eq!(tokenize("Cats and dogs", &stop), vec!["cat", "dog"]);
    assert_eq!(tokenize("Dogs bark", &stop), vec!["dog", "bark"]);
}

#[test]
fn tokenize_splits_on_non_letters() {
    let stop = TermSet::new();
    assert_eq!(tokenize("well-known: 42nd street/road", &stop), vec!["well", "known", "street", "road"]);
    assert_eq!(tokenize("a an to of", &stop), Vec::<String>::new());
    assert_eq!(tokenize("", &stop), Vec::<String>::new());
    assert_eq!(tokenize("na\u{ef}ve caf\u{e9}s", &stop), vec!["caf"]);
    assert_eq!(tokenize("x1abc2de3fgh", &stop), vec!["abc", "fgh"]);
}

#[test]
fn vocabulary_of_two_documents() {
    let stop = stop_words(&["and"]);
    let vocabulary = build_vocabulary(&cats_and_dogs(), &stop);
    assert_eq!(vocabulary.len(), 3);
    assert_eq!(vocabulary.index_of("bark"), Some(0));
    assert_eq!(vocabulary.index_of("cat"), Some(1));
    assert_eq!(vocabulary.index_of("dog"), Some(2));
    assert_eq!(vocabulary.index_of("and"), None);
    assert_eq!(vocabulary.term(0), "bark");
    assert_eq!(vocabulary.term(2), "dog");
}

#[test]
fn vocabulary_is_reproducible_and_sorted() {
    let stop = TermSet::new();
    let docs = vec![
        doc(1, "zebra apple mango"),
        doc(2, "Mango banana zebra apple"),
        doc(3, "cherry"),
    ];
    let first = build_vocabulary(&docs, &stop);
    let second = build_vocabulary(&docs, &stop);
    let terms: Vec<String> = (0..first.len()).map(|i| first.term(i)).collect();
    let again: Vec<String> = (0..second.len()).map(|i| second.term(i)).collect();
    assert_eq!(terms, again);
    let mut sorted = terms.clone();
    sorted.sort();
    sorted.dedup();
    assert_eq!(terms, sorted);
    assert_eq!(terms, vec!["appl", "banana", "cherri", "mango", "zebra"]);
}

#[test]
fn title_and_body_are_both_indexed() {
    let stop = TermSet::new();
    let docs = vec![Document {
        id: 7,
        title: "Rivers".to_string(),
        url: "u".to_string(),
        text: "lakes".to_string(),
    }];
    let vocabulary = build_vocabulary(&docs, &stop);
    assert_eq!(vocabulary.index_of("river"), Some(1));
    assert_eq!(vocabulary.index_of("lake"), Some(0));
    assert_eq!(vocabulary.index_of("riverslakes"), None);
}

#[test]
fn document_frequencies_of_two_documents() {
    let stop = stop_words(&["and"]);
    let docs = cats_and_dogs();
    let vocabulary = build_vocabulary(&docs, &stop);
    let matrix = build_term_document_matrix(&docs, &vocabulary, &stop);
    assert_eq!(matrix.n_terms, 3);
    assert_eq!(matrix.n_docs(), 2);
    assert_eq!(matrix.df, vec![1, 1, 2]);
    let n = matrix.n_docs() as f64;
    let idf: Vec<f64> = matrix
        .df
        .iter()
        .map(|&df| if df == 0 { 0.0 } else { (n / df as f64).ln() })
        .collect();
    assert_eq!(idf, vec![2f64.ln(), 2f64.ln(), 0.0]);
}

#[test]
fn counts_of_first_document() {
    let stop = stop_words(&["and"]);
    let docs = cats_and_dogs();
    let vocabulary = build_vocabulary(&docs, &stop);
    let matrix = build_term_document_matrix(&docs, &vocabulary, &stop);
    assert_eq!(matrix.columns[0].entries, vec![(1, 1), (2, 1)]);
    assert_eq!(matrix.columns[0].total, 2);
    assert_eq!(matrix.columns[1].entries, vec![(0, 1), (2, 1)]);
    assert_eq!(matrix.columns[1].total, 2);
    let idf = [2f64.ln(), 2f64.ln(), 0.0];
    let weighted: Vec<f64> = matrix.columns[0]
        .entries
        .iter()
        .map(|&(row, count)| count as f64 / matrix.columns[0].total as f64 * idf[row])
        .collect();
    assert_eq!(weighted, vec![2f64.ln() * 0.5, 0.0]);
    let norm = weighted.iter().map(|w| w * w).sum::<f64>().sqrt();
    assert_eq!(weighted[0] / norm, 1.0);
}

#[test]
fn repeated_terms_are_counted() {
    let stop = TermSet::new();
    let docs = vec![doc(1, "dog dog cat dog"), doc(2, "bird"), doc(3, "")];
    let vocabulary = build_vocabulary(&docs, &stop);
    let matrix = build_term_document_matrix(&docs, &vocabulary, &stop);
    assert_eq!(matrix.columns[0].entries, vec![(1, 1), (2, 3)]);
    assert_eq!(matrix.columns[0].total, 4);
    assert_eq!(matrix.columns[2].entries, vec![]);
    assert_eq!(matrix.columns[2].total, 0);
    assert_eq!(matrix.df, vec![1, 1, 1]);
}

#[test]
fn empty_corpus_gives_empty_matrix() {
    let stop = TermSet::new();
    let docs: Vec<Document> = Vec::new();
    let vocabulary = build_vocabulary(&docs, &stop);
    assert_eq!(vocabulary.len(), 0);
    let matrix = build_term_document_matrix(&docs, &vocabulary, &stop);
    assert_eq!(matrix.n_terms, 0);
    assert_eq!(matrix.n_docs(), 0);
    assert!(matrix.df.is_empty());
}

#[test]
fn terms_outside_the_vocabulary_are_not_counted() {
    let stop = TermSet::new();
    let vocabulary = build_vocabulary(&vec![doc(1, "dog")], &stop);
    let docs = vec![doc(1, "dog cat dog"), doc(2, "cat")];
    let matrix = build_term_document_matrix(&docs, &vocabulary, &stop);
    assert_eq!(matrix.columns[0].entries, vec![(0, 2)]);
    assert_eq!(matrix.columns[0].total, 2);
    assert_eq!(matrix.columns[1].total, 0);
    assert_eq!(matrix.df, vec![1]);
}

#[test]
fn columns_whose_terms_are_in_every_document_vanish() {
    let stop = TermSet::new();
    let docs = vec![doc(1, "dog cat"), doc(2, "dog"), doc(3, "dog bird"), doc(4, "")];
    let vocabulary = build_vocabulary(&docs, &stop);
    let mut matrix = build_term_document_matrix(&docs, &vocabulary, &stop);
    matrix.columns.pop();
    matrix.df = vec![1, 1, 3];
    assert!(!column_vanishes(&matrix, 0));
    assert!(column_vanishes(&matrix, 1));
    assert!(!column_vanishes(&matrix, 2));
    let alone = vec![doc(1, "dog cat")];
    let vocabulary = build_vocabulary(&alone, &stop);
    let matrix = build_term_document_matrix(&alone, &vocabulary, &stop);
    assert_eq!(matrix.df, vec![1, 1]);
    assert!(column_vanishes(&matrix, 0));
}

#[test]
fn a_document_without_terms_has_a_vanishing_column() {
    let stop = TermSet::new();
    let docs = vec![doc(1, "dog cat"), doc(2, "")];
    let vocabulary = build_vocabulary(&docs, &stop);
    let matrix = build_term_document_matrix(&docs, &vocabulary, &stop);
    assert!(column_vanishes(&matrix, 1));
    assert!(!column_vanishes(&matrix, 0));
}

#[test]
fn terms_of_the_corpus_have_a_positive_document_frequency() {
    let stop = TermSet::new();
    let docs = vec![doc(1, "dog cat"), doc(2, "dog"), doc(3, "dog bird"), doc(4, "")];
    let vocabulary = build_vocabulary(&docs, &stop);
    let matrix = build_term_document_matrix(&docs, &vocabulary, &stop);
    assert_eq!(matrix.df, vec![1, 1, 3]);
    for &df in &matrix.df {
        assert!(1 <= df && df <= matrix.n_docs());
    }
}

#[test]
fn lowercasing_follows_unicode() {
    let stop = TermSet::new();
    assert_eq!(tokenize("\u{212A}elvin", &stop), vec!["kelvin"]);
    assert_eq!(tokenize("KELVIN Kelvin kelvin", &stop), vec!["kelvin", "kelvin", "kelvin"]);
    assert_eq!(tokenize("\u{c9}COLE", &stop), vec!["cole"]);
}

#[test]
fn stop_words_are_matched_before_stemming() {
    let stop = stop_words(&["dogs"]);
    assert_eq!(tokenize("dogs dog DOGS", &stop), vec!["dog"]);
    let stop = stop_words(&["dog"]);
    assert_eq!(tokenize("dogs dog", &stop), vec!["dog"]);
}

#[test]
fn the_total_of_a_column_is_the_sum_of_its_counts() {
    let stop = TermSet::new();
    let docs = vec![doc(1, "dog dog cat dog bird"), doc(2, "bird"), doc(3, "")];
    let vocabulary = build_vocabulary(&docs, &stop);
    let matrix = build_term_document_matrix(&docs, &vocabulary, &stop);
    for column in &matrix.columns {
        let sum: usize = column.entries.iter().map(|&(_, count)| count).sum();
        assert_eq!(sum, column.total);
        for &(_, count) in &column.entries {
            assert!(0 < count && count <= column.total);
        }
    }
    assert_eq!(matrix.columns[0].total, 5);
}

#[test]
fn well_formed_counts_are_told_from_broken_ones() {
    let stop = TermSet::new();
    let docs = vec![doc(1, "dog dog cat"), doc(2, "bird cat"), doc(3, "")];
    let vocabulary = build_vocabulary(&docs, &stop);
    let mut matrix = build_term_document_matrix(&docs, &vocabulary, &stop);
    assert!(matrix.is_well_formed());
    matrix.df[0] += 1;
    assert!(!matrix.is_well_formed());
    matrix.df[0] -= 1;
    matrix.columns[0].entries.swap(0, 1);
    assert!(!matrix.is_well_formed());
    matrix.columns[0].entries.swap(0, 1);
    assert!(matrix.is_well_formed());
    matrix.columns[1].entries[0].1 = 0;
    assert!(!matrix.is_well_formed());
    matrix.columns[1].entries[0].1 = 1;
    matrix.n_terms = 2;
    assert!(!matrix.is_well_formed());
}

#[test]
fn columns_are_told_from_other_lists() {
    assert!(is_valid_column(&vec![], 0));
    assert!(is_valid_column(&vec![(0, 1), (2, 5)], 3));
    assert!(!is_valid_column(&vec![(0, 1), (3, 5)], 3));
    assert!(!is_valid_column(&vec![(2, 1), (0, 5)], 3));
    assert!(!is_valid_column(&vec![(1, 1), (1, 5)], 3));
    assert!(!is_valid_column(&vec![(0, 0)], 3));
}

#[test]
fn the_empty_text_is_lowered_to_itself() {
    assert_eq!(lower(""), "");
    assert_eq!(lower("MiXed \u{c9}"), "mixed \u{e9}");
    assert_eq!(lower("\u{212a}"), "k");
    assert_eq!(tokenize("", &TermSet::new()), Vec::<String>::new());
}
