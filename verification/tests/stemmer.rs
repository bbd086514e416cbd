use lsi_search::stemmer::{is_settled, porter_stem, stem_chars};

fn stem(word: &str) -> String {
    stem_chars(word.chars().collect()).into_iter().collect()
}

#[test]
fn plural_endings_are_stripped() {
    assert_eq!(stem("caresses"), "caress");
    assert_eq!(stem("ponies"), "poni");
    assert_eq!(stem("cats"), "cat");
    assert_eq!(stem("dogs"), "dog");
}

#[test]
fn short_words_are_unchanged() {
    assert_eq!(stem("as"), "as");
    assert_eq!(stem("s"), "s");
    assert_eq!(stem(""), "");
    assert_eq!(porter_stem("Is"), "is");
}

#[test]
fn porter_stem_lowercases_first() {
    assert_eq!(porter_stem("CATS"), "cat");
    assert_eq!(porter_stem("Dogs"), "dog");
    assert_eq!(porter_stem("bark"), "bark");
}

#[test]
fn past_and_progressive_endings() {
    assert_eq!(stem("agreed"), "agre");
    assert_eq!(stem("hopping"), "hop");
    assert_eq!(stem("running"), "run");
    assert_eq!(stem("troubled"), "troubl");
    assert_eq!(stem("sized"), "size");
    assert_eq!(stem("rolling"), "roll");
    assert_eq!(stem("feed"), "feed");
    assert_eq!(stem("sing"), "sing");
}

#[test]
fn final_y_becomes_i() {
    assert_eq!(stem("happy"), "happi");
    assert_eq!(stem("cherry"), "cherri");
    assert_eq!(stem("sky"), "sky");
}

#[test]
fn derivational_suffixes() {
    assert_eq!(stem("relational"), "relat");
    assert_eq!(stem("conditional"), "condit");
    assert_eq!(stem("generalization"), "gener");
    assert_eq!(stem("national"), "nation");
    assert_eq!(stem("information"), "inform");
    assert_eq!(stem("retrieval"), "retriev");
    assert_eq!(stem("adoption"), "adopt");
    assert_eq!(stem("motion"), "motion");
    assert_eq!(stem("passion"), "passion");
    assert_eq!(stem("vision"), "vision");
    assert_eq!(stem("element"), "element");
    assert_eq!(stem("rational"), "ration");
}

#[test]
fn final_e_and_double_l() {
    assert_eq!(stem("engine"), "engin");
    assert_eq!(stem("automobile"), "automobil");
    assert_eq!(stem("apple"), "appl");
    assert_eq!(stem("lake"), "lake");
    assert_eq!(stem("controlling"), "control");
}

#[test]
fn stems_of_common_stems_are_stable() {
    for word in ["cat", "dog", "bark", "relat", "condit", "gener", "happi", "poni", "caress"] {
        assert_eq!(stem(&stem(word)), stem(word));
    }
}

#[test]
fn stemming_twice_can_differ_from_stemming_once() {
    assert_eq!(stem("agreed"), "agre");
    assert_eq!(stem("agre"), "agr");
    assert_eq!(stem("agr"), "agr");
    assert_eq!(stem("cease"), "ceas");
    assert_eq!(stem("ceas"), "cea");
}

#[test]
fn settled_words_are_told_from_the_others() {
    for word in ["", "a", "as", "cat", "dog", "bark", "agr", "feed", "vision", "element", "relat"] {
        assert!(is_settled(&word.chars().collect::<Vec<char>>()));
        assert_eq!(stem(word), word);
    }
    for word in ["cats", "agreed", "agre", "ceas", "happy", "relational", "hopping", "controll"] {
        assert!(!is_settled(&word.chars().collect::<Vec<char>>()));
    }
}

#[test]
fn stemming_is_idempotent_where_the_stem_is_settled() {
    let words = [
        "caresses", "ponies", "cats", "feed", "plastered", "motoring", "sing", "conflated",
        "troubled", "sized", "hopping", "falling", "filing", "happy", "sky", "relational",
        "conditional", "rational", "digitizer", "vietnamization", "operator", "feudalism",
        "hopefulness", "formaliti", "triplicate", "formative", "electrical", "goodness",
        "revival", "allowance", "inference", "adjustable", "replacement", "adjustment",
        "adoption", "vision", "passion", "element", "communism", "effective", "probate", "rate",
        "cease", "controlling", "rolling", "agreed", "generalization", "information",
    ];
    for word in words {
        let once = stem(word);
        let settled = is_settled(&once.chars().collect::<Vec<char>>());
        assert_eq!(stem(&once) == once, settled);
        assert_eq!(settled, word != "agreed" && word != "cease");
        assert!(once.len() <= word.len());
        let shared = once.len().saturating_sub(2);
        assert_eq!(once[..shared], word[..shared]);
    }
}

#[test]
fn a_stem_differs_from_its_word_at_the_end_only() {
    assert_eq!(stem("sensibiliti"), "sensibl");
    assert_eq!(stem("happy"), "happi");
    assert_eq!(stem("hoping"), "hope");
    assert_eq!(stem("valency"), "valenc");
    for word in ["sensibiliti", "happy", "hoping", "valency", "operator", "predication"] {
        let once = stem(word);
        assert!(once.len() <= word.len());
        let shared = once.len().saturating_sub(2);
        assert_eq!(once[..shared], word[..shared]);
    }
}
