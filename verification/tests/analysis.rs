use yurecheck::aggregate::Token;
use yurecheck::analyze::analyze_tokens;
use yurecheck::builder::AnalyzedData;

fn tok(surface: &str, feature: &str, char_start: usize) -> Token {
    Token { surface: surface.to_string(), feature: feature.to_string(), char_start }
}

fn analyze(text: &str, tokens: Vec<Token>) -> AnalyzedData {
    analyze_tokens(text, &tokens)
}

#[test]
fn two_sentences_one_reading() {
    // 猫が鳴く。犬も鳴く。 with the two 鳴く tokens sharing the reading なく.
    let text = "猫が鳴く。犬も鳴く。";
    let tokens = vec![
        tok("鳴く", "動詞,自立,*,*,*,*,鳴く,なく", 2),
        tok("鳴く", "動詞,自立,*,*,*,*,鳴く,なく", 7),
    ];
    let r = analyze(text, tokens);
    assert_eq!(r.sentences.len(), 2);
    assert_eq!(r.sentences[0].text, "猫が鳴く。");
    assert_eq!(r.sentences[1].text, "犬も鳴く。");
    assert_eq!(r.sentences[0].line_num, 1);
    assert_eq!(r.sentences[1].line_num, 1);
    assert_eq!(r.grouped_tokens.len(), 1);
    assert_eq!(r.grouped_tokens[0].category, "動詞");
    let groups = &r.grouped_tokens[0].groups;
    assert_eq!(groups.len(), 1);
    assert_eq!(groups[0].reading, "なく");
    assert_eq!(groups[0].primary_word, "鳴く");
    assert_eq!(groups[0].total_count, 2);
    assert_eq!(groups[0].variants.len(), 1);
    assert_eq!(groups[0].variants[0].word, "鳴く");
    assert_eq!(groups[0].variants[0].count, 2);
    assert_eq!(r.sentence_map.len(), 1);
    assert_eq!(r.sentence_map[0].reading, "なく");
    assert_eq!(r.sentence_map[0].sentence_indices, vec![0, 1]);
}

#[test]
fn empty_input_empty_result() {
    let r = analyze("", vec![]);
    assert!(r.sentences.is_empty());
    assert!(r.grouped_tokens.is_empty());
    assert!(r.sentence_map.is_empty());
}

#[test]
fn only_filtered_tokens_keep_sentences() {
    // Sentences survive segmentation even when every token is filtered out.
    let text = "が。は。";
    let tokens = vec![
        tok("が", "助詞,格助詞,一般,*,*,*,が,が", 0),
        tok("は", "助詞,係助詞,*,*,*,*,は,は", 2),
    ];
    let r = analyze(text, tokens);
    assert_eq!(r.sentences.len(), 2);
    assert!(r.grouped_tokens.is_empty());
    assert!(r.sentence_map.is_empty());
}

#[test]
fn variant_counts_and_primary() {
    // 三つ の surface forms under one reading: the most frequent is primary,
    // the total is the exact sum, ties keep first-seen order.
    let text = "引越し。引っ越し。引越し。引越。";
    let f1 = "名詞,一般,*,*,*,*,引越し,ひっこし";
    let f2 = "名詞,一般,*,*,*,*,引っ越し,ひっこし";
    let f3 = "名詞,一般,*,*,*,*,引越,ひっこし";
    let tokens = vec![
        tok("引越し", f1, 0),
        tok("引っ越し", f2, 4),
        tok("引越し", f1, 9),
        tok("引越", f3, 13),
    ];
    let r = analyze(text, tokens);
    assert_eq!(r.grouped_tokens.len(), 1);
    assert_eq!(r.grouped_tokens[0].category, "名詞");
    let g = &r.grouped_tokens[0].groups[0];
    assert_eq!(g.reading, "ひっこし");
    assert_eq!(g.primary_word, "引越し");
    assert_eq!(g.total_count, 4);
    let words: Vec<&str> = g.variants.iter().map(|v| v.word.as_str()).collect();
    let counts: Vec<usize> = g.variants.iter().map(|v| v.count).collect();
    assert_eq!(words, vec!["引越し", "引っ越し", "引越"]);
    assert_eq!(counts, vec![2, 1, 1]);
    assert_eq!(g.total_count, counts.iter().sum::<usize>());
}

#[test]
fn categories_and_groups_sorted() {
    // Categories ascend by code point; within one, groups ascend by reading.
    let text = "太郎が歩く。東京で走る。";
    let tokens = vec![
        tok("太郎", "名詞,固有名詞,人名,名,*,*,太郎,たろう", 0),
        tok("歩く", "動詞,自立,*,*,*,*,歩く,あるく", 3),
        tok("東京", "名詞,固有名詞,地域,一般,*,*,東京,とうきょう", 6),
        tok("走る", "動詞,自立,*,*,*,*,走る,はしる", 9),
    ];
    let r = analyze(text, tokens);
    let cats: Vec<&str> = r.grouped_tokens.iter().map(|c| c.category.as_str()).collect();
    // 人 U+4EBA < 動 U+52D5 < 固 U+56FA.
    assert_eq!(cats, vec!["人名", "動詞", "固有名詞"]);
    let verbs = &r.grouped_tokens[1].groups;
    let readings: Vec<&str> = verbs.iter().map(|g| g.reading.as_str()).collect();
    assert_eq!(readings, vec!["あるく", "はしる"]);
    // The sentence map keeps first-seen reading order.
    let map_readings: Vec<&str> = r.sentence_map.iter().map(|m| m.reading.as_str()).collect();
    assert_eq!(map_readings, vec!["たろう", "あるく", "とうきょう", "はしる"]);
    assert_eq!(r.sentence_map[2].sentence_indices, vec![1]);
}

#[test]
fn first_seen_feature_decides_category() {
    // The feature tuple of a surface form's first occurrence is retained,
    // and the primary variant's tuple decides the category.
    let text = "城。城。しろ。";
    let tokens = vec![
        tok("城", "名詞,固有名詞,地域,一般,*,*,城,しろ", 0),
        tok("城", "名詞,一般,*,*,*,*,城,しろ", 2),
        tok("しろ", "名詞,一般,*,*,*,*,城,しろ", 4),
    ];
    let r = analyze(text, tokens);
    assert_eq!(r.grouped_tokens.len(), 1);
    assert_eq!(r.grouped_tokens[0].category, "固有名詞");
    let g = &r.grouped_tokens[0].groups[0];
    assert_eq!(g.primary_word, "城");
    assert_eq!(g.total_count, 3);
}

#[test]
fn sentence_indices_deduplicated_and_ascending() {
    let text = "走る、走る。また走る。";
    let f = "動詞,自立,*,*,*,*,走る,はしる";
    let tokens = vec![tok("走る", f, 0), tok("走る", f, 3), tok("走る", f, 8)];
    let r = analyze(text, tokens);
    assert_eq!(r.sentence_map.len(), 1);
    assert_eq!(r.sentence_map[0].sentence_indices, vec![0, 1]);
    assert_eq!(r.grouped_tokens[0].groups[0].total_count, 3);
}

#[test]
fn token_beyond_last_boundary_falls_back_to_first_sentence() {
    // A trailing token past every recorded boundary is attributed to
    // sentence 0 rather than rejected.
    let text = "歩く。";
    let f = "動詞,自立,*,*,*,*,歩く,あるく";
    let tokens = vec![tok("歩く", f, 10)];
    let r = analyze(text, tokens);
    assert_eq!(r.sentence_map[0].sentence_indices, vec![0]);
}
