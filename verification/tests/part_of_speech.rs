use epigram::dictionary::DictionaryError;
use epigram::part_of_speech::PartOfSpeech;

#[test]
fn plain_names_parse() {
    assert_eq!(PartOfSpeech::try_from("verb").unwrap(), PartOfSpeech::Verb);
    assert_eq!(PartOfSpeech::try_from("noun").unwrap(), PartOfSpeech::Noun);
    assert_eq!(PartOfSpeech::try_from("adjective").unwrap(), PartOfSpeech::Adjective);
    assert_eq!(PartOfSpeech::try_from("adverb").unwrap(), PartOfSpeech::Adverb);
}

#[test]
fn case_whitespace_and_plural_are_ignored() {
    assert_eq!(PartOfSpeech::try_from("Verbs").unwrap(), PartOfSpeech::Verb);
    assert_eq!(PartOfSpeech::try_from("  NOUN \n").unwrap(), PartOfSpeech::Noun);
    assert_eq!(PartOfSpeech::try_from("Adjectives ").unwrap(), PartOfSpeech::Adjective);
    assert_eq!(PartOfSpeech::try_from("adverbss").unwrap(), PartOfSpeech::Adverb);
}

#[test]
fn all_unicode_whitespace_is_trimmed() {
    assert_eq!(PartOfSpeech::try_from("verb\u{000B}").unwrap(), PartOfSpeech::Verb);
    assert_eq!(PartOfSpeech::try_from("\u{000C}noun\u{0085}").unwrap(), PartOfSpeech::Noun);
    assert_eq!(
        PartOfSpeech::try_from("\u{00A0}adjective\u{2003}").unwrap(),
        PartOfSpeech::Adjective
    );
    assert_eq!(
        PartOfSpeech::try_from("\u{3000}Adverbs\u{202F}\u{2028}").unwrap(),
        PartOfSpeech::Adverb
    );
}

#[test]
fn unknown_headers_are_rejected() {
    match PartOfSpeech::try_from("pronoun") {
        Err(DictionaryError::InvalidHeader(h)) => assert_eq!(h, "pronoun"),
        other => panic!("expected InvalidHeader, got {other:?}"),
    }
    assert!(PartOfSpeech::try_from("").is_err());
    assert!(PartOfSpeech::try_from("verbose").is_err());
}

#[test]
fn names_render_as_text() {
    assert_eq!(PartOfSpeech::Verb.text(), "verb");
    assert_eq!(PartOfSpeech::Noun.text(), "noun");
    assert_eq!(PartOfSpeech::Adjective.text(), "adjective");
    assert_eq!(PartOfSpeech::Adverb.text(), "adverb");
}
