use lsi_search::coordinator::{
    cached_rank, proceed, scoring_mode, task_for, ArtefactState, Finding, Task,
};
use lsi_search::counts::build_term_document_matrix;
use lsi_search::document::Document;
use lsi_search::lanczos::SvdError;
use lsi_search::layout::{decimal, index_layout, svd_layout};
use lsi_search::persist::{check_layout, PersistenceError, Repair};
use lsi_search::query::SearchMode;
use lsi_search::sparse::{compress, expand, restore_counts, Compressed};
use lsi_search::stopwords::{is_space, lines, parse_stop_words, stop_words_from_lines, trim};
use lsi_search::terms::TermSet;
use lsi_search::tokenizer::build_vocabulary;

fn doc(id: i64, text: &str) -> Document {
    Document { id, title: String::new(), url: String::new(), text: text.to_string() }
}

fn sample() -> lsi_search::counts::TermCounts {
    let stop = TermSet::new();
    let docs = vec![doc(1, "dog dog cat"), doc(2, ""), doc(3, "bird cat"), doc(4, "dog")];
    let vocabulary = build_vocabulary(&docs, &stop);
    build_term_document_matrix(&docs, &vocabulary, &stop)
}

#[test]
fn compressed_form_of_a_matrix() {
    let c = compress(&sample());
    assert_eq!(c.n_outer, 4);
    assert_eq!(c.n_inner, 3);
    assert_eq!(c.offsets, vec![0, 2, 2, 4, 5]);
    assert_eq!(c.indices, vec![1, 2, 0, 1, 2]);
    assert_eq!(c.counts, vec![1, 2, 1, 1, 1]);
    assert_eq!(check_layout(c.n_outer, c.n_inner, &c.offsets, &c.indices, c.counts.len()), Ok(()));
}

#[test]
fn compressed_form_of_an_empty_matrix() {
    let stop = TermSet::new();
    let docs: Vec<Document> = Vec::new();
    let vocabulary = build_vocabulary(&docs, &stop);
    let c = compress(&build_term_document_matrix(&docs, &vocabulary, &stop));
    assert_eq!((c.n_outer, c.n_inner), (0, 0));
    assert_eq!(c.offsets, vec![0]);
    assert!(c.indices.is_empty());
    assert_eq!(expand(&c), Ok(vec![]));
}

#[test]
fn columns_are_read_back() {
    let matrix = sample();
    let c = compress(&matrix);
    let columns = expand(&c).unwrap();
    let written: Vec<Vec<(usize, usize)>> =
        matrix.columns.iter().map(|column| column.entries.clone()).collect();
    assert_eq!(columns, written);
    assert_eq!(columns, vec![vec![(1, 1), (2, 2)], vec![], vec![(0, 1), (1, 1)], vec![(2, 1)]]);
}

#[test]
fn counts_survive_saving_and_loading() {
    let matrix = sample();
    let c = compress(&matrix);
    let totals: Vec<usize> = matrix.columns.iter().map(|column| column.total).collect();
    let loaded = restore_counts(&c, &totals).unwrap();
    assert_eq!(loaded.n_terms, matrix.n_terms);
    assert_eq!(loaded.df, matrix.df);
    assert_eq!(loaded.df, vec![1, 2, 2]);
    assert_eq!(loaded.n_docs(), matrix.n_docs());
    for d in 0..matrix.n_docs() {
        assert_eq!(loaded.columns[d].entries, matrix.columns[d].entries);
        assert_eq!(loaded.columns[d].total, matrix.columns[d].total);
    }
}

#[test]
fn corrupt_compressed_forms_are_refused() {
    let good = compress(&sample());
    let corrupt = Err(PersistenceError::CorruptHeader);
    let broken = Compressed {
        n_outer: good.n_outer,
        n_inner: good.n_inner,
        offsets: good.offsets.clone(),
        indices: good.indices.clone(),
        counts: vec![1, 2, 0, 1, 1],
    };
    assert_eq!(expand(&broken), corrupt);
    let broken = Compressed {
        n_outer: good.n_outer,
        n_inner: 2,
        offsets: good.offsets.clone(),
        indices: good.indices.clone(),
        counts: good.counts.clone(),
    };
    assert_eq!(expand(&broken), corrupt);
    let broken = Compressed {
        n_outer: good.n_outer,
        n_inner: good.n_inner,
        offsets: vec![0, 2, 2, 4, 5],
        indices: vec![2, 1, 0, 1, 2],
        counts: good.counts.clone(),
    };
    assert_eq!(expand(&broken), corrupt);
    assert!(matches!(restore_counts(&good, &vec![3, 0, 2]), Err(PersistenceError::CorruptHeader)));
    assert!(matches!(
        restore_counts(&broken, &vec![3, 0, 2, 1]),
        Err(PersistenceError::CorruptHeader)
    ));
}

#[test]
fn stop_words_are_trimmed_and_lowercased() {
    let set = parse_stop_words("The\n  and \n\nOF\r\n\t\nthe\n");
    assert_eq!(set.len(), 3);
    assert!(set.contains("the"));
    assert!(set.contains("and"));
    assert!(set.contains("of"));
    assert!(!set.contains("The"));
    assert!(!set.contains(""));
    assert_eq!(set.term(0), "and");
    assert_eq!(set.term(1), "of");
    assert_eq!(set.term(2), "the");
}

#[test]
fn stop_words_from_no_lines() {
    assert_eq!(parse_stop_words("").len(), 0);
    assert_eq!(parse_stop_words("\n\n \r\n").len(), 0);
    assert_eq!(stop_words_from_lines(&vec![vec![' '], Vec::new()]).len(), 0);
    assert_eq!(stop_words_from_lines(&Vec::new()).len(), 0);
    let set = stop_words_from_lines(&vec![" A B ".chars().collect()]);
    assert!(set.contains("a b"));
    assert_eq!(set.len(), 1);
}

#[test]
fn white_space_is_what_unicode_says() {
    for code in 0..=0x10ffffu32 {
        if let Some(c) = char::from_u32(code) {
            assert_eq!(is_space(c), c.is_whitespace());
        }
    }
}

#[test]
fn texts_are_trimmed_like_strings() {
    let samples = [
        "",
        " ",
        "\t\r\n",
        "word",
        "  word",
        "word  ",
        " two words \n",
        "\u{a0}nbsp\u{3000}",
        "\u{200b}zero width\u{200b}",
        "a\u{2028}",
        " \u{85} x \u{1680}\u{2009}",
    ];
    for text in samples {
        let chars: Vec<char> = text.chars().collect();
        let expected: Vec<char> = text.trim().chars().collect();
        assert_eq!(trim(&chars), expected);
    }
}

#[test]
fn texts_are_cut_at_line_feeds() {
    let cut = |text: &str| -> Vec<String> {
        let chars: Vec<char> = text.chars().collect();
        lines(&chars).into_iter().map(|line| line.into_iter().collect()).collect()
    };
    assert_eq!(cut(""), vec![""]);
    assert_eq!(cut("one"), vec!["one"]);
    assert_eq!(cut("one\ntwo"), vec!["one", "two"]);
    assert_eq!(cut("one\ntwo\n"), vec!["one", "two", ""]);
    assert_eq!(cut("\n\n"), vec!["", "", ""]);
    assert_eq!(cut("one\r\ntwo"), vec!["one\r", "two"]);
}

#[test]
fn stop_words_are_those_of_the_trimmed_lowercased_lines() {
    let samples = [
        "the\nand\nof\n",
        "The\r\n  AND\r\nof",
        "\n\n\n",
        "a\n\nb\n \nc",
        "\u{c9}t\u{e9}\n\u{a0}LES \n",
        "one two\nthree\r",
    ];
    for content in samples {
        let mut expected: Vec<String> = content
            .lines()
            .map(|line| line.trim().to_lowercase())
            .filter(|line| !line.is_empty())
            .collect();
        expected.sort();
        expected.dedup();
        let set = parse_stop_words(content);
        let found: Vec<String> = (0..set.len()).map(|i| set.term(i)).collect();
        assert_eq!(found, expected);
    }
}

#[test]
fn numbers_are_written_in_decimal() {
    assert_eq!(decimal(0), "0");
    assert_eq!(decimal(7), "7");
    assert_eq!(decimal(10), "10");
    assert_eq!(decimal(25), "25");
    assert_eq!(decimal(1090), "1090");
    assert_eq!(decimal(usize::MAX), usize::MAX.to_string());
}

#[test]
fn index_files_share_the_base_name() {
    let layout = index_layout("cache/wiki");
    assert_eq!(layout.index, "cache/wiki.idx");
    assert_eq!(layout.terms, "cache/wiki_terms");
    assert_eq!(layout.docs, "cache/wiki_docs");
    assert_eq!(layout.matrix, "cache/wiki_matrix");
}

#[test]
fn svd_files_carry_the_rank() {
    let layout = svd_layout("cache/wiki", 25);
    assert_eq!(layout.index, "cache/wiki_svd_k25.idx");
    assert_eq!(layout.meta, "cache/wiki_svd_k25_meta");
    assert_eq!(layout.u, "cache/wiki_svd_k25_u");
    assert_eq!(layout.vt, "cache/wiki_svd_k25_vt");
    assert_eq!(layout.docs, "cache/wiki_svd_k25_docs");
    assert_eq!(svd_layout("", 0).index, "_svd_k0.idx");
}

#[test]
fn a_present_cache_is_loaded() {
    let mut state = ArtefactState::Unknown;
    assert_eq!(task_for(state), Task::Probe);
    state = proceed(state, Finding::Probed { present: true });
    assert_eq!(task_for(state), Task::Load);
    state = proceed(state, Finding::Loaded { repair: Repair::Intact });
    assert_eq!(state, ArtefactState::Ready { repaired: false });
    assert_eq!(task_for(state), Task::Rest);
}

#[test]
fn a_missing_cache_is_built() {
    let mut state = proceed(ArtefactState::Unknown, Finding::Probed { present: false });
    assert_eq!(task_for(state), Task::BuildAndSave);
    state = proceed(state, Finding::Built);
    assert_eq!(state, ArtefactState::Ready { repaired: false });
}

#[test]
fn a_cache_that_fails_to_load_is_rebuilt() {
    for error in [
        PersistenceError::CacheMissing,
        PersistenceError::CorruptHeader,
        PersistenceError::SizeMismatch,
    ] {
        let state = proceed(ArtefactState::Loading, Finding::LoadFailed { error });
        assert_eq!(state, ArtefactState::Building);
    }
}

#[test]
fn a_repaired_cache_is_used() {
    let state =
        proceed(ArtefactState::Loading, Finding::Loaded { repair: Repair::Padded { missing: 4 } });
    assert_eq!(state, ArtefactState::Ready { repaired: true });
    let state = proceed(
        ArtefactState::Loading,
        Finding::Loaded { repair: Repair::Truncated { excess: 1 } },
    );
    assert_eq!(state, ArtefactState::Ready { repaired: true });
}

#[test]
fn findings_out_of_turn_change_nothing() {
    assert_eq!(proceed(ArtefactState::Unknown, Finding::Built), ArtefactState::Unknown);
    let ready = ArtefactState::Ready { repaired: false };
    assert_eq!(proceed(ready, Finding::Probed { present: false }), ready);
    assert_eq!(
        proceed(ArtefactState::Building, Finding::Probed { present: true }),
        ArtefactState::Building
    );
}

#[test]
fn a_failed_decomposition_falls_back_to_tfidf() {
    let state = proceed(
        ArtefactState::Building,
        Finding::BuildFailed { cause: SvdError::NoSignificantSingularValues },
    );
    assert_eq!(state, ArtefactState::Unavailable);
    assert_eq!(task_for(state), Task::Rest);
    assert_eq!(scoring_mode(SearchMode::Lsi, state), SearchMode::TfIdf);
    assert_eq!(scoring_mode(SearchMode::LowRank, state), SearchMode::TfIdf);
    assert_eq!(scoring_mode(SearchMode::TfIdf, state), SearchMode::TfIdf);
    let ready = ArtefactState::Ready { repaired: true };
    assert_eq!(scoring_mode(SearchMode::Lsi, ready), SearchMode::Lsi);
    assert_eq!(scoring_mode(SearchMode::LowRank, ready), SearchMode::LowRank);
    assert_eq!(scoring_mode(SearchMode::Lsi, ArtefactState::Building), SearchMode::TfIdf);
}

#[test]
fn a_requested_rank_is_served_by_a_cached_one() {
    assert_eq!(cached_rank(0), 10);
    assert_eq!(cached_rank(10), 10);
    assert_eq!(cached_rank(11), 25);
    assert_eq!(cached_rank(25), 25);
    assert_eq!(cached_rank(26), 50);
    assert_eq!(cached_rank(50), 50);
    assert_eq!(cached_rank(5000), 50);
}
