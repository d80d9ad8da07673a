use vibrato::dictionary::SystemDictionaryBuilder;
use vibrato::Tokenizer;
use yurecheck::analyze::analyze_text;

fn toy_tokenizer() -> Tokenizer {
    let lexicon_csv = "猫,0,0,1,名詞,一般,*,*,*,*,猫,ねこ
が,0,0,1,助詞,格助詞,*,*,*,*,が,が
鳴く,0,0,1,動詞,自立,*,*,*,*,鳴く,なく
犬,0,0,1,名詞,一般,*,*,*,*,犬,いぬ
も,0,0,1,助詞,係助詞,*,*,*,*,も,も
。,0,0,1,記号,句点,*,*,*,*,。,。";
    let matrix_def = "1 1\n0 0 0";
    let char_def = "DEFAULT 0 1 0";
    let unk_def = "DEFAULT,0,0,100,*";
    let dict = SystemDictionaryBuilder::from_readers(
        lexicon_csv.as_bytes(),
        matrix_def.as_bytes(),
        char_def.as_bytes(),
        unk_def.as_bytes(),
    )
    .unwrap();
    Tokenizer::new(dict)
}

#[test]
fn end_to_end_through_tokenizer() {
    let tokenizer = toy_tokenizer();
    let r = analyze_text(&tokenizer, "猫が鳴く。犬も鳴く。");

    assert_eq!(r.sentences.len(), 2);
    assert_eq!(r.sentences[0].text, "猫が鳴く。");
    assert_eq!(r.sentences[1].text, "犬も鳴く。");

    // Particles and symbols vanish; three readings remain.
    let cats: Vec<&str> = r.grouped_tokens.iter().map(|c| c.category.as_str()).collect();
    assert_eq!(cats, vec!["動詞", "名詞"]);

    let verbs = &r.grouped_tokens[0].groups;
    assert_eq!(verbs.len(), 1);
    assert_eq!(verbs[0].reading, "なく");
    assert_eq!(verbs[0].primary_word, "鳴く");
    assert_eq!(verbs[0].total_count, 2);

    let nouns = &r.grouped_tokens[1].groups;
    let noun_readings: Vec<&str> = nouns.iter().map(|g| g.reading.as_str()).collect();
    assert_eq!(noun_readings, vec!["いぬ", "ねこ"]);

    // The verb occurs in both sentences; each noun in its own.
    let nak = r.sentence_map.iter().find(|m| m.reading == "なく").unwrap();
    assert_eq!(nak.sentence_indices, vec![0, 1]);
    let neko = r.sentence_map.iter().find(|m| m.reading == "ねこ").unwrap();
    assert_eq!(neko.sentence_indices, vec![0]);
    let inu = r.sentence_map.iter().find(|m| m.reading == "いぬ").unwrap();
    assert_eq!(inu.sentence_indices, vec![1]);
}

#[test]
fn tokenizer_offsets_in_characters() {
    // Multi-byte text: offsets reported by the tokenizer are character
    // counts, so the second sentence's tokens land in sentence 1.
    let tokenizer = toy_tokenizer();
    let r = analyze_text(&tokenizer, "猫も犬も鳴く。猫が鳴く。");
    assert_eq!(r.sentences.len(), 2);
    let nak = r.sentence_map.iter().find(|m| m.reading == "なく").unwrap();
    assert_eq!(nak.sentence_indices, vec![0, 1]);
    let neko = r.sentence_map.iter().find(|m| m.reading == "ねこ").unwrap();
    assert_eq!(neko.sentence_indices, vec![0, 1]);
    let inu = r.sentence_map.iter().find(|m| m.reading == "いぬ").unwrap();
    assert_eq!(inu.sentence_indices, vec![0]);
}
