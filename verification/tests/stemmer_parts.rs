use lsi_search::stemmer::{
    ends_with_cvc, has_vowel, is_vowel, measure, replace_suffix, replace_suffix_condition, step_1a,
    step_1b, step_1c, step_2, step_3, step_4, step_5a, step_5b,
};

fn chars(word: &str) -> Vec<char> {
    word.chars().collect()
}

fn apply(step: fn(&mut Vec<char>), word: &str) -> String {
    let mut w = chars(word);
    step(&mut w);
    w.into_iter().collect()
}

#[test]
fn vowels_and_the_letter_y() {
    let w = chars("syzygy");
    let found: Vec<bool> = (0..w.len()).map(|i| is_vowel(&w, i)).collect();
    assert_eq!(found, vec![false, true, false, true, false, true]);
    let w = chars("yay");
    assert!(!is_vowel(&w, 0));
    assert!(is_vowel(&w, 1));
    assert!(!is_vowel(&w, 2));
    let w = chars("yyy");
    assert!(!is_vowel(&w, 0));
    assert!(is_vowel(&w, 1));
    assert!(!is_vowel(&w, 2));
}

#[test]
fn measure_counts_vowel_consonant_transitions() {
    assert_eq!(measure(&chars("")), 0);
    assert_eq!(measure(&chars("tr")), 0);
    assert_eq!(measure(&chars("ee")), 0);
    assert_eq!(measure(&chars("tree")), 0);
    assert_eq!(measure(&chars("by")), 0);
    assert_eq!(measure(&chars("trouble")), 1);
    assert_eq!(measure(&chars("oats")), 1);
    assert_eq!(measure(&chars("trees")), 1);
    assert_eq!(measure(&chars("ivy")), 1);
    assert_eq!(measure(&chars("troubles")), 2);
    assert_eq!(measure(&chars("private")), 2);
    assert_eq!(measure(&chars("oaten")), 2);
    assert_eq!(measure(&chars("orrery")), 2);
}

#[test]
fn words_with_and_without_vowels() {
    assert!(has_vowel(&chars("cat")));
    assert!(has_vowel(&chars("sky")));
    assert!(!has_vowel(&chars("y")));
    assert!(has_vowel(&chars("rhythm")));
    assert!(!has_vowel(&chars("brr")));
    assert!(!has_vowel(&chars("")));
}

#[test]
fn consonant_vowel_consonant_endings() {
    assert!(ends_with_cvc(&chars("hop")));
    assert!(ends_with_cvc(&chars("wil")));
    assert!(!ends_with_cvc(&chars("how")));
    assert!(!ends_with_cvc(&chars("box")));
    assert!(!ends_with_cvc(&chars("bay")));
    assert!(!ends_with_cvc(&chars("op")));
    assert!(!ends_with_cvc(&chars("eat")));
}

#[test]
fn suffixes_are_replaced() {
    let mut w = chars("caresses");
    assert!(replace_suffix(&mut w, "sses", "ss"));
    assert_eq!(w, chars("caress"));
    let mut w = chars("cat");
    assert!(!replace_suffix(&mut w, "sses", "ss"));
    assert_eq!(w, chars("cat"));
    let mut w = chars("es");
    assert!(!replace_suffix(&mut w, "sses", "ss"));
    let mut w = chars("abc");
    assert!(replace_suffix(&mut w, "", "d"));
    assert_eq!(w, chars("abcd"));
    let mut w = chars("ing");
    assert!(replace_suffix(&mut w, "ing", ""));
    assert!(w.is_empty());
}

#[test]
fn suffixes_are_replaced_under_a_condition() {
    let mut w = chars("agreed");
    assert!(replace_suffix_condition(&mut w, "eed", "ee", |stem| measure(stem) > 0));
    assert_eq!(w, chars("agree"));
    let mut w = chars("feed");
    assert!(!replace_suffix_condition(&mut w, "eed", "ee", |stem| measure(stem) > 0));
    assert_eq!(w, chars("feed"));
    let mut w = chars("feed");
    assert!(!replace_suffix_condition(&mut w, "ing", "", |_| true));
    assert_eq!(w, chars("feed"));
    let mut w = chars("feed");
    assert!(replace_suffix_condition(&mut w, "eed", "ee", |stem| stem.len() == 1));
    assert_eq!(w, chars("fee"));
}

#[test]
fn step_1a_strips_plurals() {
    assert_eq!(apply(step_1a, "caresses"), "caress");
    assert_eq!(apply(step_1a, "ponies"), "poni");
    assert_eq!(apply(step_1a, "ties"), "ti");
    assert_eq!(apply(step_1a, "caress"), "caress");
    assert_eq!(apply(step_1a, "cats"), "cat");
    assert_eq!(apply(step_1a, "ss"), "ss");
    assert_eq!(apply(step_1a, "s"), "");
    assert_eq!(apply(step_1a, "gas"), "ga");
    assert_eq!(apply(step_1a, "brrs"), "brr");
    assert_eq!(apply(step_1a, "cat"), "cat");
}

#[test]
fn step_1b_strips_ed_and_ing() {
    assert_eq!(apply(step_1b, "agreed"), "agree");
    assert_eq!(apply(step_1b, "feed"), "feed");
    assert_eq!(apply(step_1b, "eed"), "eed");
    assert_eq!(apply(step_1b, "shed"), "shed");
    assert_eq!(apply(step_1b, "plastered"), "plaster");
    assert_eq!(apply(step_1b, "bled"), "bled");
    assert_eq!(apply(step_1b, "motoring"), "motor");
    assert_eq!(apply(step_1b, "sing"), "sing");
    assert_eq!(apply(step_1b, "conflated"), "conflate");
    assert_eq!(apply(step_1b, "troubled"), "trouble");
    assert_eq!(apply(step_1b, "sized"), "size");
    assert_eq!(apply(step_1b, "hopping"), "hop");
    assert_eq!(apply(step_1b, "tanned"), "tan");
    assert_eq!(apply(step_1b, "falling"), "fall");
    assert_eq!(apply(step_1b, "hissing"), "hiss");
    assert_eq!(apply(step_1b, "fizzed"), "fizz");
    assert_eq!(apply(step_1b, "failing"), "fail");
    assert_eq!(apply(step_1b, "filing"), "file");
}

#[test]
fn step_1c_turns_y_into_i() {
    assert_eq!(apply(step_1c, "happy"), "happi");
    assert_eq!(apply(step_1c, "sky"), "sky");
    assert_eq!(apply(step_1c, "y"), "y");
    assert_eq!(apply(step_1c, ""), "");
}

#[test]
fn step_2_maps_double_suffixes() {
    assert_eq!(apply(step_2, "relational"), "relate");
    assert_eq!(apply(step_2, "conditional"), "condition");
    assert_eq!(apply(step_2, "rational"), "rational");
    assert_eq!(apply(step_2, "valenci"), "valence");
    assert_eq!(apply(step_2, "digitizer"), "digitize");
    assert_eq!(apply(step_2, "conformabli"), "conformable");
    assert_eq!(apply(step_2, "radicalli"), "radical");
    assert_eq!(apply(step_2, "differentli"), "different");
    assert_eq!(apply(step_2, "vileli"), "vile");
    assert_eq!(apply(step_2, "analogousli"), "analogous");
    assert_eq!(apply(step_2, "vietnamization"), "vietnamize");
    assert_eq!(apply(step_2, "predication"), "predicate");
    assert_eq!(apply(step_2, "operator"), "operate");
    assert_eq!(apply(step_2, "feudalism"), "feudal");
    assert_eq!(apply(step_2, "decisiveness"), "decisive");
    assert_eq!(apply(step_2, "hopefulness"), "hopeful");
    assert_eq!(apply(step_2, "callousness"), "callous");
    assert_eq!(apply(step_2, "formaliti"), "formal");
    assert_eq!(apply(step_2, "sensitiviti"), "sensitive");
    assert_eq!(apply(step_2, "sensibiliti"), "sensible");
    assert_eq!(apply(step_2, "ization"), "ization");
    assert_eq!(apply(step_2, "ational"), "ational");
    assert_eq!(apply(step_2, "motional"), "motional");
}

#[test]
fn step_3_strips_further_suffixes() {
    assert_eq!(apply(step_3, "triplicate"), "triplic");
    assert_eq!(apply(step_3, "formative"), "form");
    assert_eq!(apply(step_3, "formalize"), "formal");
    assert_eq!(apply(step_3, "electriciti"), "electric");
    assert_eq!(apply(step_3, "electrical"), "electric");
    assert_eq!(apply(step_3, "hopeful"), "hope");
    assert_eq!(apply(step_3, "goodness"), "good");
    assert_eq!(apply(step_3, "ness"), "ness");
}

#[test]
fn step_4_strips_residual_suffixes() {
    assert_eq!(apply(step_4, "revival"), "reviv");
    assert_eq!(apply(step_4, "allowance"), "allow");
    assert_eq!(apply(step_4, "inference"), "infer");
    assert_eq!(apply(step_4, "airliner"), "airlin");
    assert_eq!(apply(step_4, "gyroscopic"), "gyroscop");
    assert_eq!(apply(step_4, "adjustable"), "adjust");
    assert_eq!(apply(step_4, "defensible"), "defens");
    assert_eq!(apply(step_4, "irritant"), "irrit");
    assert_eq!(apply(step_4, "replacement"), "replac");
    assert_eq!(apply(step_4, "adjustment"), "adjust");
    assert_eq!(apply(step_4, "dependent"), "depend");
    assert_eq!(apply(step_4, "adoption"), "adopt");
    assert_eq!(apply(step_4, "homologou"), "homolog");
    assert_eq!(apply(step_4, "communism"), "commun");
    assert_eq!(apply(step_4, "activate"), "activ");
    assert_eq!(apply(step_4, "angulariti"), "angular");
    assert_eq!(apply(step_4, "homologous"), "homolog");
    assert_eq!(apply(step_4, "effective"), "effect");
    assert_eq!(apply(step_4, "bowdlerize"), "bowdler");
    assert_eq!(apply(step_4, "ration"), "ration");
    assert_eq!(apply(step_4, "sion"), "sion");
    assert_eq!(apply(step_4, "vision"), "vision");
    assert_eq!(apply(step_4, "passion"), "passion");
    assert_eq!(apply(step_4, "element"), "element");
    assert_eq!(apply(step_4, "rate"), "rate");
    assert_eq!(apply(step_4, "television"), "televis");
}

#[test]
fn step_5_tidies_the_end() {
    assert_eq!(apply(step_5a, "probate"), "probat");
    assert_eq!(apply(step_5a, "rate"), "rate");
    assert_eq!(apply(step_5a, "cease"), "ceas");
    assert_eq!(apply(step_5a, "e"), "e");
    assert_eq!(apply(step_5b, "controll"), "control");
    assert_eq!(apply(step_5b, "roll"), "roll");
    assert_eq!(apply(step_5b, "l"), "l");
    assert_eq!(apply(step_5b, ""), "");
}
