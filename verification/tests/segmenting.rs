use yurecheck::segment::split_sentences;
use yurecheck::locate::locate_sentence;

#[test]
fn no_marker_single_sentence() {
    let (sents, bounds) = split_sentences("こんにちは");
    assert_eq!(sents.len(), 1);
    assert_eq!(sents[0].text, "こんにちは");
    assert_eq!(sents[0].line_num, 1);
    assert_eq!(bounds, vec![5]);
}

#[test]
fn marker_kinds_all_split() {
    let (sents, bounds) = split_sentences("あ。い？う！え");
    let texts: Vec<&str> = sents.iter().map(|s| s.text.as_str()).collect();
    assert_eq!(texts, vec!["あ。", "い？", "う！", "え"]);
    assert_eq!(bounds, vec![2, 4, 6, 7]);
}

#[test]
fn blank_candidates_dropped() {
    // Four markers, but the newline-only candidates vanish: fewer than
    // k+1 sentences, and no boundary is recorded for them.
    let (sents, bounds) = split_sentences("あ。\n\nい。");
    let texts: Vec<&str> = sents.iter().map(|s| s.text.as_str()).collect();
    assert_eq!(texts, vec!["あ。", "い。"]);
    assert_eq!(bounds, vec![2, 6]);
    assert_eq!(sents[1].line_num, 3);
}

#[test]
fn consecutive_full_stops_kept() {
    // A lone marker trims to itself, not to nothing, so it stays a
    // sentence of its own.
    let (sents, bounds) = split_sentences("あ。。");
    let texts: Vec<&str> = sents.iter().map(|s| s.text.as_str()).collect();
    assert_eq!(texts, vec!["あ。", "。"]);
    assert_eq!(bounds, vec![2, 3]);
}

#[test]
fn marker_count_bounds_sentence_count() {
    // k well-separated markers and a trailing remainder: exactly k+1.
    let (sents, _bounds) = split_sentences("あ。い。う");
    assert_eq!(sents.len(), 3);
}

#[test]
fn line_numbers_count_preceding_newlines() {
    // Each sentence's line number is 1 + the newlines before its start.
    let (sents, bounds) = split_sentences("一行。\n二行。\n\n四行。");
    let texts: Vec<&str> = sents.iter().map(|s| s.text.as_str()).collect();
    assert_eq!(texts, vec!["一行。", "二行。", "四行。"]);
    let lines: Vec<usize> = sents.iter().map(|s| s.line_num).collect();
    assert_eq!(lines, vec![1, 2, 4]);
    assert_eq!(bounds, vec![3, 7, 12]);
}

#[test]
fn newline_starts_next_line_sentence() {
    let (sents, _bounds) = split_sentences("あ。\nい。");
    assert_eq!(sents.len(), 2);
    assert_eq!(sents[0].line_num, 1);
    assert_eq!(sents[1].line_num, 2);
    assert_eq!(sents[1].text, "い。");
}

#[test]
fn blank_text_no_sentences() {
    let (sents, bounds) = split_sentences("  \u{3000} ");
    assert!(sents.is_empty());
    assert!(bounds.is_empty());
}

#[test]
fn locate_picks_first_greater_boundary() {
    let bounds: Vec<usize> = vec![3, 8, 12];
    assert_eq!(locate_sentence(&bounds, 0), 0);
    assert_eq!(locate_sentence(&bounds, 2), 0);
    assert_eq!(locate_sentence(&bounds, 3), 1);
    assert_eq!(locate_sentence(&bounds, 7), 1);
    assert_eq!(locate_sentence(&bounds, 11), 2);
    assert_eq!(locate_sentence(&bounds, 12), 0);
    assert_eq!(locate_sentence(&bounds, 99), 0);
}

#[test]
fn locate_empty_bounds_defaults_to_zero() {
    let bounds: Vec<usize> = vec![];
    assert_eq!(locate_sentence(&bounds, 5), 0);
}
