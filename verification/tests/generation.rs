use epigram::dictionary::Dictionary;
use epigram::phrase_gen::static_phrase_gen::StaticPhraseGen;
use epigram::phrase_gen::PhraseGen;
use epigram::word_bank::WordBank;

fn bank_of(entries: &[(&str, &[&str])]) -> WordBank {
    let mut bank = WordBank::new();
    for (name, words) in entries {
        let words: Vec<String> = words.iter().map(|w| w.to_string()).collect();
        bank.insert(name.to_string(), words);
    }
    bank
}

#[test]
fn single_candidate_sentence_is_deterministic() {
    let bank = bank_of(&[
        ("adjective", &["quick"][..]),
        ("noun", &["fox"][..]),
        ("verb", &["jumps"][..]),
        ("adverb", &["quietly"][..]),
    ]);
    let pg = PhraseGen::new(
        bank,
        "The {{adjective}} {{noun}} {{verb}} {{adverb}}.".to_string(),
    );
    assert_eq!(pg.get_phrase().expect("a phrase"), "The quick fox jumps quietly.");
}

#[test]
fn empty_class_fails() {
    let bank = bank_of(&[("adjective", &[][..])]);
    let pg = PhraseGen::new(bank, "A {{adjective}} thing".to_string());
    assert!(pg.get_phrase().is_none());
}

#[test]
fn unknown_class_is_kept_verbatim() {
    let bank = bank_of(&[]);
    let pg = PhraseGen::new(bank, "Static text {{unknown}}".to_string());
    assert_eq!(pg.get_phrase().expect("a phrase"), "Static text {{unknown}}");
}

#[test]
fn format_without_placeholders_is_returned_unchanged() {
    let bank = bank_of(&[("noun", &["fox"][..])]);
    let pg = PhraseGen::new(bank, "Hello, world.".to_string());
    assert_eq!(pg.get_phrase().expect("a phrase"), "Hello, world.");
}

#[test]
fn empty_format_generates_empty_phrase() {
    let bank = bank_of(&[("adjective", &[][..])]);
    let pg = PhraseGen::new(bank, String::new());
    assert_eq!(pg.get_phrase().expect("a phrase"), "");
}

#[test]
fn empty_class_harmless_when_not_referenced() {
    let bank = bank_of(&[("adjective", &[][..]), ("noun", &["fox"][..])]);
    let pg = PhraseGen::new(bank, "One {{noun}}".to_string());
    assert_eq!(pg.get_phrase().expect("a phrase"), "One fox");
}

#[test]
fn each_occurrence_draws_from_the_class() {
    let bank = bank_of(&[("noun", &["alpha", "beta"][..])]);
    let pg = PhraseGen::new(bank, "{{noun}} {{noun}} {{noun}} {{noun}}".to_string());
    let mut saw_alpha = false;
    let mut saw_beta = false;
    for _ in 0..200 {
        let phrase = pg.get_phrase().expect("a phrase");
        for word in phrase.split(' ') {
            assert!(word == "alpha" || word == "beta", "unexpected word: {word}");
            if word == "alpha" {
                saw_alpha = true;
            }
            if word == "beta" {
                saw_beta = true;
            }
        }
    }
    assert!(saw_alpha && saw_beta, "both candidates should appear over many draws");
}

#[test]
fn failure_is_persistent() {
    let bank = bank_of(&[("noun", &[][..])]);
    let pg = PhraseGen::new(bank, "a {{noun}}".to_string());
    for _ in 0..10 {
        assert!(pg.get_phrase().is_none());
    }
}

#[test]
fn unclosed_braces_are_literal_text() {
    let bank = bank_of(&[("noun", &["fox"][..])]);
    for format in ["{{", "{{noun", "{noun}", "noun}}", "{{no{un}}"] {
        let pg = PhraseGen::new(bank_of(&[("noun", &["fox"][..])]), format.to_string());
        assert_eq!(pg.get_phrase().expect("a phrase"), *format);
    }
    let pg = PhraseGen::new(bank, "a{{noun}}b".to_string());
    assert_eq!(pg.get_phrase().expect("a phrase"), "afoxb");
}

#[test]
fn placeholder_after_stray_braces_is_substituted() {
    let bank = bank_of(&[("noun", &["fox"][..])]);
    let pg = PhraseGen::new(bank, "{{a{{noun}}".to_string());
    assert_eq!(pg.get_phrase().expect("a phrase"), "{{afox");
}

#[test]
fn substituted_words_are_not_rescanned() {
    let bank = bank_of(&[("a", &["{{b}}"][..]), ("b", &["z"][..])]);
    let pg = PhraseGen::new(bank, "{{a}} {{b}}".to_string());
    assert_eq!(pg.get_phrase().expect("a phrase"), "{{b}} z");
}

#[test]
fn default_generator_yields_empty_phrase() {
    let pg = PhraseGen::default();
    assert_eq!(pg.get_phrase().expect("a phrase"), "");
}

#[test]
fn dictionary_generates_like_phrase_gen() {
    let bank = bank_of(&[("noun", &["fox"][..])]);
    let dict = Dictionary::new(bank, "a {{noun}}!".to_string());
    assert_eq!(dict.get_phrase().expect("a phrase"), "a fox!");
    let empty = Dictionary::default();
    assert_eq!(empty.get_phrase().expect("a phrase"), "");
}

#[test]
fn static_phrase_gen_generates_like_phrase_gen() {
    let bank = bank_of(&[("verb", &["runs"][..]), ("noun", &[][..])]);
    let gen = StaticPhraseGen::new(bank, "it {{verb}}".to_string());
    assert_eq!(gen.get_phrase().expect("a phrase"), "it runs");
    let failing = StaticPhraseGen::new(
        bank_of(&[("noun", &[][..])]),
        "{{noun}}".to_string(),
    );
    assert!(failing.get_phrase().is_none());
    let empty = StaticPhraseGen::default();
    assert_eq!(empty.get_phrase().expect("a phrase"), "");
}
