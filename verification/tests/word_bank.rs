use epigram::word_bank::WordBank;

#[test]
fn lookup_in_empty_bank_finds_nothing() {
    let bank = WordBank::new();
    assert!(bank.get("noun").is_none());
}

#[test]
fn insert_then_get_returns_the_words() {
    let mut bank = WordBank::new();
    bank.insert("noun".to_string(), vec!["fox".to_string(), "dog".to_string()]);
    let words = bank.get("noun").expect("class should be present");
    assert_eq!(words, &vec!["fox".to_string(), "dog".to_string()]);
    assert!(bank.get("verb").is_none());
}

#[test]
fn insert_replaces_an_existing_class() {
    let mut bank = WordBank::new();
    bank.insert("noun".to_string(), vec!["fox".to_string()]);
    bank.insert("noun".to_string(), vec!["owl".to_string()]);
    let words = bank.get("noun").expect("class should be present");
    assert_eq!(words, &vec!["owl".to_string()]);
}

#[test]
fn an_empty_class_is_present_but_empty() {
    let mut bank = WordBank::new();
    bank.insert("noun".to_string(), Vec::new());
    let words = bank.get("noun").expect("class should be present");
    assert!(words.is_empty());
}
