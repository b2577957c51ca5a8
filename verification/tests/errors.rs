use epigram::dictionary::DictionaryError;
use epigram::phrase_gen::phrase_gen_build_error::PhraseGenBuildError;
use epigram::phrase_gen::static_phrase_gen::StaticPhraseGenError;

#[test]
fn build_error_messages_name_the_field() {
    assert_eq!(
        PhraseGenBuildError::MissingField("config".to_string()).message(),
        "'config' is missing"
    );
    assert_eq!(
        PhraseGenBuildError::WrongFieldType("config.type".to_string()).message(),
        "'config.type' doesn't have the expected type"
    );
}

#[test]
fn dictionary_error_messages() {
    assert_eq!(DictionaryError::MissingConfigTable.message(), "'config' table is missing");
    assert_eq!(DictionaryError::MissingFormatString.message(), "config.format is missing");
    assert_eq!(
        DictionaryError::InvalidHeader("pronoun".to_string()).message(),
        "not a known part of speech: pronoun"
    );
}

#[test]
fn static_phrase_gen_error_messages() {
    assert_eq!(
        StaticPhraseGenError::MissingConfigTable.message(),
        "'config' table is missing"
    );
    assert_eq!(
        StaticPhraseGenError::MissingConfigTypeHeader.message(),
        "config.type key is missing"
    );
}
