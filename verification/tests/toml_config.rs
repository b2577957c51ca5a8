use epigram::phrase_gen::PhraseGen;
use epigram::word_bank::WordBank;

fn build_phrase_gen(table: &toml::Table) -> Option<PhraseGen> {
    let config = table.get("config")?.as_table()?;
    if config.get("type")?.as_str()? != "static" {
        return None;
    }
    let format = config.get("format")?.as_str()?.to_owned();
    let mut bank = WordBank::new();
    for (name, words) in table.get("classes")?.as_table()?.iter() {
        let list: Vec<String> = words
            .as_str()?
            .split_terminator('\n')
            .map(|s| s.to_owned())
            .collect();
        bank.insert(name.clone(), list);
    }
    Some(PhraseGen::new(bank, format))
}

#[test]
fn phrase_gen_example_non_empty_phrases() {
    let example = "[config]\ntype = \"static\"\nformat = \"The {{adjective}} {{noun}} {{verb}} {{adverb}}.\"\n\n[classes]\nadjective = \"quick\\nsly\\nlazy\"\nnoun = \"fox\\ndog\\ncrow\"\nverb = \"jumps\\nruns\\nsleeps\"\nadverb = \"quietly\\nquickly\\nslowly\"\n";
    let t = example.parse::<toml::Table>().expect("parse toml");
    let pg = build_phrase_gen(&t).expect("build PhraseGen");
    assert_ne!("", pg.get_phrase().expect("a phrase").trim());
}

#[test]
fn parsed_config_substitutes_every_class() {
    let source = "[config]\ntype = \"static\"\nformat = \"{{noun}} and {{noun}}\"\n\n[classes]\nnoun = \"fox\"\n";
    let t = source.parse::<toml::Table>().expect("parse toml");
    let pg = build_phrase_gen(&t).expect("build PhraseGen");
    assert_eq!(pg.get_phrase().expect("a phrase"), "fox and fox");
}
