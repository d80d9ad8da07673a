use yurecheck::classify::{get_display_category, keep_token, split_commas, token_reading};

#[test]
fn person_name_category() {
    assert_eq!(get_display_category("名詞,固有名詞,人名,名,*,*,太郎,たろう"), "人名");
}

#[test]
fn proper_noun_category() {
    assert_eq!(get_display_category("名詞,固有名詞,地域,一般,*,*,東京,とうきょう"), "固有名詞");
    // A proper noun without the third detail field still files as one.
    assert_eq!(get_display_category("名詞,固有名詞"), "固有名詞");
}

#[test]
fn plain_pos_category() {
    assert_eq!(get_display_category("動詞,自立,*,*,*,*,歩く,あるく"), "動詞");
    assert_eq!(get_display_category("名詞,一般,*,*,*,*,城,しろ"), "名詞");
    assert_eq!(get_display_category("名詞"), "名詞");
    assert_eq!(get_display_category(""), "");
}

#[test]
fn keep_requires_resolved_base_and_reading() {
    assert!(keep_token("動詞,自立,*,*,*,*,歩く,あるく"));
    assert!(!keep_token("動詞,自立,*,*,*,*,*,あるく"));
    assert!(!keep_token("動詞,自立,*,*,*,*,歩く,*"));
    // A tuple too short to carry a base form or reading is dropped.
    assert!(!keep_token("動詞,自立"));
    assert!(!keep_token(""));
}

#[test]
fn excluded_pos_never_kept() {
    assert!(!keep_token("助詞,格助詞,一般,*,*,*,が,が"));
    assert!(!keep_token("助動詞,*,*,*,*,*,です,です"));
    assert!(!keep_token("接続詞,*,*,*,*,*,そして,そして"));
    assert!(!keep_token("連体詞,*,*,*,*,*,この,この"));
    assert!(!keep_token("記号,句点,*,*,*,*,。,。"));
}

#[test]
fn reading_is_eighth_field() {
    assert_eq!(token_reading("動詞,自立,*,*,*,*,歩く,あるく"), "あるく");
    assert_eq!(token_reading("動詞,自立,*,*,*,*,歩く,あるく,アルク"), "あるく");
    assert_eq!(token_reading("動詞,自立"), "");
}

#[test]
fn split_commas_keeps_empty_fields() {
    let fields = split_commas("a,,b");
    assert_eq!(fields, vec!["a", "", "b"]);
    let single = split_commas("");
    assert_eq!(single, vec![""]);
    let trailing = split_commas("a,");
    assert_eq!(trailing, vec!["a", ""]);
}
