use lsi_search::counts::count_terms;
use lsi_search::document::Document;
use lsi_search::terms::{lex_order, TermOrder, TermSet};
use lsi_search::text::chars_of;
use lsi_search::tokenizer::{tokenize_document, tokenize_lowered, tokens_of_runs};

fn chars(word: &str) -> Vec<char> {
    word.chars().collect()
}

fn order(a: &str, b: &str) -> TermOrder {
    lex_order(&chars(a), &chars(b))
}

#[test]
fn terms_are_ordered_by_character() {
    assert_eq!(order("cat", "dog"), TermOrder::Before);
    assert_eq!(order("dog", "cat"), TermOrder::After);
    assert_eq!(order("cat", "cat"), TermOrder::Same);
    assert_eq!(order("", ""), TermOrder::Same);
    assert_eq!(order("", "a"), TermOrder::Before);
    assert_eq!(order("a", ""), TermOrder::After);
    assert_eq!(order("cat", "cats"), TermOrder::Before);
    assert_eq!(order("cats", "cat"), TermOrder::After);
    assert_eq!(order("Zebra", "apple"), TermOrder::Before);
    assert_eq!(order("z", "\u{e9}"), TermOrder::Before);
}

#[test]
fn term_order_agrees_with_string_order() {
    let words = ["", "a", "ab", "abc", "abd", "b", "ba", "z", "zz", "\u{e9}t\u{e9}", "\u{1f600}"];
    for a in words {
        for b in words {
            let expected = if a < b {
                TermOrder::Before
            } else if a == b {
                TermOrder::Same
            } else {
                TermOrder::After
            };
            assert_eq!(order(a, b), expected);
        }
    }
}

#[test]
fn a_term_set_keeps_its_terms_sorted() {
    let mut set = TermSet::new();
    assert_eq!(set.len(), 0);
    assert!(set.insert(chars("mango")));
    assert!(set.insert(chars("apple")));
    assert!(set.insert(chars("zebra")));
    assert!(set.insert(chars("banana")));
    assert!(!set.insert(chars("apple")));
    assert!(!set.insert(chars("zebra")));
    assert_eq!(set.len(), 4);
    let terms: Vec<String> = (0..set.len()).map(|i| set.term(i)).collect();
    assert_eq!(terms, vec!["apple", "banana", "mango", "zebra"]);
}

#[test]
fn a_term_set_finds_its_terms() {
    let mut set = TermSet::new();
    for word in ["delta", "alpha", "charlie", "bravo", "echo"] {
        set.insert(chars(word));
    }
    assert_eq!(set.index_of("alpha"), Some(0));
    assert_eq!(set.index_of("bravo"), Some(1));
    assert_eq!(set.index_of("charlie"), Some(2));
    assert_eq!(set.index_of("delta"), Some(3));
    assert_eq!(set.index_of("echo"), Some(4));
    assert_eq!(set.position(&chars("echo")), Some(4));
    assert_eq!(set.index_of(""), None);
    assert_eq!(set.index_of("alph"), None);
    assert_eq!(set.index_of("alphabet"), None);
    assert_eq!(set.index_of("foxtrot"), None);
    assert!(set.contains("delta"));
    assert!(!set.contains("Delta"));
    assert_eq!(TermSet::new().index_of("alpha"), None);
}

#[test]
fn the_empty_term_can_be_a_member() {
    let mut set = TermSet::new();
    assert!(set.insert(Vec::new()));
    assert!(set.insert(chars("a")));
    assert_eq!(set.index_of(""), Some(0));
    assert_eq!(set.index_of("a"), Some(1));
}

#[test]
fn characters_of_a_string() {
    assert_eq!(chars_of("abc"), vec!['a', 'b', 'c']);
    assert_eq!(chars_of(""), Vec::<char>::new());
    assert_eq!(chars_of("\u{e9}t\u{e9}"), vec!['\u{e9}', 't', '\u{e9}']);
}

#[test]
fn runs_are_filtered_and_stemmed() {
    let mut stop = TermSet::new();
    stop.insert(chars("the"));
    let runs: Vec<String> =
        ["the", "cats", "of", "rome", "the", "ran"].iter().map(|r| r.to_string()).collect();
    assert_eq!(tokens_of_runs(&runs, &stop), vec![chars("cat"), chars("rome"), chars("ran")]);
    assert_eq!(tokens_of_runs(&Vec::new(), &stop), Vec::<Vec<char>>::new());
}

#[test]
fn lowered_text_is_cut_into_terms() {
    let stop = TermSet::new();
    assert_eq!(tokenize_lowered("cats, dogs; birds", &stop), vec![chars("cat"), chars("dog"), chars("bird")]);
    assert_eq!(tokenize_lowered("it is", &stop), Vec::<Vec<char>>::new());
}

#[test]
fn a_document_is_indexed_by_title_and_body() {
    let stop = TermSet::new();
    let doc = Document {
        id: 1,
        title: "Roman Cats".to_string(),
        url: "http://example.org/cats".to_string(),
        text: "cats of Rome".to_string(),
    };
    assert_eq!(doc.full_text(), "Roman Cats cats of Rome");
    assert_eq!(
        tokenize_document(&doc, &stop),
        vec![chars("roman"), chars("cat"), chars("cat"), chars("rome")]
    );
}

#[test]
fn terms_are_counted_over_a_vocabulary() {
    let mut vocabulary = TermSet::new();
    for word in ["cat", "dog", "emu"] {
        vocabulary.insert(chars(word));
    }
    let tokens = vec![chars("dog"), chars("cat"), chars("dog"), chars("fox"), chars("dog")];
    let column = count_terms(&tokens, &vocabulary);
    assert_eq!(column.entries, vec![(0, 1), (1, 3)]);
    assert_eq!(column.total, 4);
    let none = count_terms(&Vec::new(), &vocabulary);
    assert!(none.entries.is_empty());
    assert_eq!(none.total, 0);
}

#[test]
fn a_vocabulary_written_out_and_read_back_is_the_same() {
    let mut set = TermSet::new();
    for word in ["delta", "alpha", "charlie", "bravo", "echo", "\u{e9}t\u{e9}"] {
        set.insert(chars(word));
    }
    let written = set.terms();
    assert_eq!(written, vec!["alpha", "bravo", "charlie", "delta", "echo", "\u{e9}t\u{e9}"]);
    let read = TermSet::from_terms(&written);
    assert_eq!(read.len(), set.len());
    assert_eq!(read.terms(), written);
    for (index, term) in written.iter().enumerate() {
        assert_eq!(read.index_of(term), Some(index));
        assert_eq!(set.index_of(term), Some(index));
    }
    assert!(TermSet::new().terms().is_empty());
    assert_eq!(TermSet::from_terms(&Vec::new()).len(), 0);
}

#[test]
fn terms_read_in_any_order_make_a_sorted_set() {
    let listed: Vec<String> =
        ["pear", "apple", "pear", "fig", "apple"].iter().map(|t| t.to_string()).collect();
    let set = TermSet::from_terms(&listed);
    assert_eq!(set.terms(), vec!["apple", "fig", "pear"]);
    assert!(set.is_well_formed());
    assert!(TermSet::new().is_well_formed());
}
